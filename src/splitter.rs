//! Bounded recursive splitting of an oversized segment into parts of at most `max` bytes.
use vstd::prelude::*;
use vstd::string::*;
use crate::text::{
    byte_len, byte_offset, char_len_utf8, lemma_byte_len_subrange, lemma_byte_offset_full, lemma_byte_len_concat,
    lemma_byte_offset_step, lemma_line_bounds, lemma_prefix_within, lemma_prefix_within_unique,
    line_end, next_line, prefix_within, substring, substring_at, byte_offsets, trim_end, str_byte_len, chars_of, find_line_stop,
    find_line_end, trim_end_exec, trim_end_at, range_byte_len, lemma_trim_end_bounds,
    line_stop,
};

verus! {

/// The character views of a sequence of strings.
pub open spec fn views(v: Seq<String>) -> Seq<Seq<char>> {
    v.map_values(|p: String| p@)
}

/// How many characters the next part of a too-long line takes: as many as fit in `max`
/// bytes, and at least one, so that a character wider than `max` stands alone.
pub open spec fn part_take(l: Seq<char>, max: nat) -> nat {
    if prefix_within(l, max as int) == 0 {
        1
    } else {
        prefix_within(l, max as int)
    }
}

/// A line cut at character boundaries, greedily, into parts of at most `max` bytes.
pub open spec fn char_split(l: Seq<char>, max: nat) -> Seq<Seq<char>>
    decreases l.len(),
{
    if l.len() == 0 {
        Seq::empty()
    } else {
        proof {
            lemma_prefix_within(l, max as int);
        }
        let k = part_take(l, max) as int;
        seq![l.take(k)] + char_split(l.skip(k), max)
    }
}

/// The pending buffer as a finished part, with trailing whitespace removed.
pub open spec fn flush(buf: Seq<char>) -> Seq<Seq<char>> {
    if buf.len() > 0 {
        seq![trim_end(buf)]
    } else {
        Seq::empty()
    }
}

/// The parts made from the lines of `t` that start at `a` onwards, with `buf` pending:
/// lines (each with a line feed) gather in the buffer while it stays within `max`
/// bytes; a line that would overflow it flushes it first; a line longer than `max`
/// bytes on its own is cut by characters.
pub open spec fn pack_lines(t: Seq<char>, max: nat, a: int, buf: Seq<char>) -> Seq<Seq<char>>
    decreases t.len() + 1 - a,
{
    if a < 0 || a >= t.len() {
        flush(buf)
    } else {
        proof {
            lemma_line_bounds(t, a);
        }
        let line = t.subrange(a, line_end(t, a));
        let with_nl = line.push('\n');
        let next = next_line(t, a);
        if byte_len(buf) + byte_len(with_nl) > max {
            if byte_len(line) > max {
                flush(buf) + char_split(line, max) + pack_lines(t, max, next, Seq::empty())
            } else {
                flush(buf) + pack_lines(t, max, next, with_nl)
            }
        } else {
            pack_lines(t, max, next, buf + with_nl)
        }
    }
}

/// The parts of `t` for a bound of `max` bytes: `t` itself when it fits, else its lines
/// packed.
pub open spec fn split_parts(t: Seq<char>, max: nat) -> Seq<Seq<char>> {
    if byte_len(t) <= max {
        seq![t]
    } else {
        pack_lines(t, max, 0, Seq::empty())
    }
}

/// Appends to `parts` the pieces of the characters `a..e` of `s` (whose characters are
/// `t`), cut greedily at character boundaries into parts of at most `max` bytes.
fn push_char_parts(
    s: &str,
    t: &Vec<char>,
    offs: &Vec<usize>,
    a: usize,
    e: usize,
    max: usize,
    parts: &mut Vec<String>,
)
    requires
        t@ == s@,
        a <= e <= t@.len(),
        offs@.len() == s@.len() + 1,
        forall|k: int| 0 <= k <= s@.len() ==> #[trigger] offs@[k] == byte_offset(s@, k),
    ensures
        views(final(parts)@) == views(old(parts)@) + char_split(t@.subrange(a as int, e as int), max as nat),
{
    let ghost start = views(parts@);
    let mut i = a;
    while i < e
        invariant
            t@ == s@,
            a <= i <= e <= t@.len(),
            offs@.len() == s@.len() + 1,
            forall|k: int| 0 <= k <= s@.len() ==> #[trigger] offs@[k] == byte_offset(s@, k),
            views(parts@) + char_split(t@.subrange(i as int, e as int), max as nat) == start
                + char_split(t@.subrange(a as int, e as int), max as nat),
        decreases e - i,
    {
        let ghost rest = t@.subrange(i as int, e as int);
        let mut j = i;
        let mut bytes: usize = 0;
        while j < e && char_len_utf8(t[j]) <= max - bytes
            invariant
                i <= j <= e <= t@.len(),
                rest == t@.subrange(i as int, e as int),
                bytes <= max,
                bytes == byte_offset(rest, j - i),
            decreases e - j,
        {
            proof {
                lemma_byte_offset_step(rest, j - i);
            }
            bytes = bytes + char_len_utf8(t[j]);
            j = j + 1;
        }
        proof {
            if j < e {
                lemma_byte_offset_step(rest, j - i);
            }
            lemma_prefix_within_unique(rest, max as int, j - i);
        }
        if j == i {
            j = i + 1;
        }
        let part = substring_at(s, offs, i, j);
        let ghost before = views(parts@);
        parts.push(part);
        proof {
            assert(rest.take(j - i) =~= t@.subrange(i as int, j as int));
            assert(rest.skip(j - i) =~= t@.subrange(j as int, e as int));
            assert(views(parts@) =~= before.push(part@));
            assert(char_split(rest, max as nat) == seq![rest.take(j - i)] + char_split(
                rest.skip(j - i),
                max as nat,
            ));
            assert(before + char_split(rest, max as nat) =~= views(parts@) + char_split(
                t@.subrange(j as int, e as int),
                max as nat,
            ));
        }
        i = j;
    }
}

/// Appends the line `a..e` of `s` (whose characters are `t`) and a line feed to the
/// pending buffer, held both as characters and as a string.
fn append_line(
    s: &str,
    t: &Vec<char>,
    offs: &Vec<usize>,
    a: usize,
    e: usize,
    buf: &mut Vec<char>,
    buf_s: &mut String,
)
    requires
        t@ == s@,
        a <= e <= t@.len(),
        offs@.len() == s@.len() + 1,
        forall|k: int| 0 <= k <= s@.len() ==> #[trigger] offs@[k] == byte_offset(s@, k),
        old(buf_s)@ == old(buf)@,
    ensures
        final(buf)@ == old(buf)@ + t@.subrange(a as int, e as int).push('\n'),
        final(buf_s)@ == final(buf)@,
{
    let ghost start = buf@;
    let mut k = a;
    while k < e
        invariant
            a <= k <= e <= t@.len(),
            buf@ == start + t@.subrange(a as int, k as int),
        decreases e - k,
    {
        buf.push(t[k]);
        proof {
            assert(t@.subrange(a as int, k + 1) =~= t@.subrange(a as int, k as int).push(t@[k as int]));
        }
        k = k + 1;
    }
    buf.push('\n');
    let line = substring_at(s, offs, a, e);
    buf_s.append(line.as_str());
    let nl = "\n";
    proof {
        reveal_strlit("\n");
    }
    buf_s.append(nl);
    proof {
        assert(buf@ =~= start + t@.subrange(a as int, e as int).push('\n'));
        assert(buf_s@ =~= buf@);
    }
}

/// Moves the pending buffer, trailing whitespace trimmed, to `parts`, if it holds anything.
fn flush_into(parts: &mut Vec<String>, buf: &Vec<char>, buf_s: &String)
    requires
        buf_s@ == buf@,
    ensures
        views(final(parts)@) == views(old(parts)@) + flush(buf@),
{
    if buf.len() > 0 {
        let k = trim_end_exec(buf, 0, buf.len());
        let part = substring(buf_s.as_str(), 0, k);
        let ghost before = views(parts@);
        parts.push(part);
        proof {
            assert(views(parts@) =~= before.push(part@));
            assert(part@ =~= trim_end(buf@));
            assert(views(parts@) =~= before + flush(buf@));
        }
    } else {
        proof {
            assert(views(old(parts)@) + flush(buf@) =~= views(old(parts)@));
        }
    }
}

/// Byte length of a line with its line feed.
proof fn lemma_with_newline(line: Seq<char>)
    ensures
        byte_len(line.push('\n')) == byte_len(line) + 1,
{
    assert(line.push('\n').drop_last() =~= line);
}

/// Splits `content` into parts of at most `max_len` bytes. Text that fits is returned
/// whole. Otherwise lines, each with a line feed, gather in a buffer while it fits; a
/// line that would overflow it flushes it (trailing whitespace trimmed) as a part; a
/// line longer than `max_len` on its own is cut at character boundaries, greedily, a
/// character wider than `max_len` standing alone. No character is ever cut.
pub fn recursive_split(content: &str, max_len: usize) -> (parts: Vec<String>)
    ensures
        views(parts@) == split_parts(content@, max_len as nat),
{
    let n = str_byte_len(content);
    let mut parts: Vec<String> = Vec::new();
    if n <= max_len {
        parts.push(content.to_owned());
        proof {
            assert(views(parts@) =~= seq![content@]);
        }
        return parts;
    }
    let t = chars_of(content);
    let offs = byte_offsets(&t);
    let mut buf: Vec<char> = Vec::new();
    let mut buf_s = String::new();
    let mut buf_bytes: usize = 0;
    let mut a: usize = 0;
    proof {
        assert(views(parts@) + pack_lines(t@, max_len as nat, 0, buf@) =~= pack_lines(
            t@,
            max_len as nat,
            0,
            Seq::empty(),
        ));
    }
    while a < t.len()
        invariant
            t@ == content@,
            byte_len(t@) == n,
            max_len < n,
            offs@.len() == content@.len() + 1,
            forall|k: int| 0 <= k <= content@.len() ==> #[trigger] offs@[k] == byte_offset(content@, k),
            a <= t@.len(),
            buf_s@ == buf@,
            buf_bytes == byte_len(buf@),
            buf_bytes <= max_len + 1,
            pack_lines(t@, max_len as nat, 0, Seq::empty()) == views(parts@) + pack_lines(
                t@,
                max_len as nat,
                a as int,
                buf@,
            ),
        decreases t@.len() - a,
    {
        let stop = find_line_stop(&t, a);
        let e = find_line_end(&t, a, stop);
        let line_bytes = range_byte_len(&t, a, e);
        let ghost line = t@.subrange(a as int, e as int);
        let ghost old_buf = buf@;
        let ghost before = views(parts@);
        proof {
            lemma_line_bounds(t@, a as int);
            lemma_with_newline(line);
            lemma_byte_len_subrange(t@, a as int, e as int);
            lemma_byte_len_subrange(t@, e as int, t@.len() as int);
            lemma_byte_offset_full(t@);
        }
        let next = if stop < t.len() {
            stop + 1
        } else {
            stop
        };
        if buf_bytes > max_len || line_bytes >= max_len - buf_bytes {
            flush_into(&mut parts, &buf, &buf_s);
            if line_bytes > max_len {
                push_char_parts(content, &t, &offs, a, e, max_len, &mut parts);
                buf = Vec::new();
                buf_s = String::new();
                buf_bytes = 0;
                proof {
                    assert(line_end(t@, a as int) == e);
                    assert(byte_len(old_buf) + byte_len(line.push('\n')) > max_len);
                    assert(pack_lines(t@, max_len as nat, a as int, old_buf) == flush(old_buf)
                        + char_split(line, max_len as nat) + pack_lines(
                        t@,
                        max_len as nat,
                        next_line(t@, a as int),
                        Seq::empty(),
                    ));
                    assert(pack_lines(t@, max_len as nat, next_line(t@, a as int), Seq::empty())
                        == pack_lines(t@, max_len as nat, next as int, Seq::empty()));
                    assert(before + pack_lines(t@, max_len as nat, a as int, old_buf) =~= views(
                        parts@,
                    ) + pack_lines(t@, max_len as nat, next as int, buf@));
                }
            } else {
                buf = Vec::new();
                buf_s = String::new();
                append_line(content, &t, &offs, a, e, &mut buf, &mut buf_s);
                buf_bytes = line_bytes + 1;
                proof {
                    assert(buf@ =~= line.push('\n'));
                    assert(line_end(t@, a as int) == e);
                    assert(byte_len(old_buf) + byte_len(line.push('\n')) > max_len);
                    assert(pack_lines(t@, max_len as nat, a as int, old_buf) == flush(old_buf)
                        + pack_lines(t@, max_len as nat, next_line(t@, a as int), buf@));
                    assert(pack_lines(t@, max_len as nat, next_line(t@, a as int), buf@)
                        == pack_lines(t@, max_len as nat, next as int, buf@));
                    assert(before + pack_lines(t@, max_len as nat, a as int, old_buf) =~= views(
                        parts@,
                    ) + pack_lines(t@, max_len as nat, next as int, buf@));
                }
            }
        } else {
            append_line(content, &t, &offs, a, e, &mut buf, &mut buf_s);
            buf_bytes = buf_bytes + line_bytes + 1;
            proof {
                lemma_byte_len_concat(old_buf, line.push('\n'));
            }
        }
        a = next;
    }
    flush_into(&mut parts, &buf, &buf_s);
    proof {
        assert(views(parts@) =~= pack_lines(t@, max_len as nat, 0, Seq::empty()));
    }
    parts
}

/// Total byte length of a sequence of parts.
pub open spec fn total_bytes(parts: Seq<Seq<char>>) -> nat
    decreases parts.len(),
{
    if parts.len() == 0 {
        0
    } else {
        byte_len(parts[0]) + total_bytes(parts.drop_first())
    }
}

/// Byte totals add up over concatenation.
pub proof fn lemma_total_concat(x: Seq<Seq<char>>, y: Seq<Seq<char>>)
    ensures
        total_bytes(x + y) == total_bytes(x) + total_bytes(y),
    decreases x.len(),
{
    if x.len() == 0 {
        assert(x + y =~= y);
    } else {
        assert((x + y).drop_first() =~= x.drop_first() + y);
        lemma_total_concat(x.drop_first(), y);
    }
}

/// The byte total of a single part is its byte length.
pub proof fn lemma_total_single(x: Seq<char>)
    ensures
        total_bytes(seq![x]) == byte_len(x),
{
    assert(seq![x].drop_first() =~= Seq::<Seq<char>>::empty());
    assert(total_bytes(Seq::<Seq<char>>::empty()) == 0);
}

/// Cutting a line by characters keeps every byte of it.
pub proof fn lemma_char_split_total(l: Seq<char>, max: nat)
    ensures
        total_bytes(char_split(l, max)) == byte_len(l),
    decreases l.len(),
{
    if l.len() > 0 {
        lemma_prefix_within(l, max as int);
        let k = part_take(l, max) as int;
        lemma_char_split_total(l.skip(k), max);
        lemma_total_concat(seq![l.take(k)], char_split(l.skip(k), max));
        lemma_total_single(l.take(k));
        assert(l =~= l.take(k) + l.skip(k));
        lemma_byte_len_concat(l.take(k), l.skip(k));
        assert((seq![l.take(k)] + char_split(l.skip(k), max)).drop_first() =~= char_split(
            l.skip(k),
            max,
        ));
    }
}

proof fn lemma_flush_total(buf: Seq<char>)
    ensures
        total_bytes(flush(buf)) <= byte_len(buf),
        buf.len() > 0 && buf.last() == '\n' ==> total_bytes(flush(buf)) + 1 <= byte_len(buf),
{
    if buf.len() > 0 {
        let n = buf.len() as int;
        let k = trim_end_at(buf, 0, n);
        lemma_trim_end_bounds(buf, 0, n);
        lemma_byte_len_subrange(buf, 0, k);
        lemma_byte_len_subrange(buf, k, n);
        lemma_byte_offset_full(buf);
        assert(buf.subrange(0, k) =~= trim_end(buf));
        lemma_total_single(trim_end(buf));
        if buf.last() == '\n' {
            lemma_trim_end_bounds(buf, 0, n - 1);
            assert(k <= n - 1);
            lemma_byte_len_subrange(buf, k, n - 1);
            lemma_byte_offset_step(buf, n - 1);
        }
    } else {
        assert(total_bytes(Seq::<Seq<char>>::empty()) == 0);
    }
}

/// The parts packed from the lines at `a` onwards, with `buf` pending, hold no more
/// bytes than those lines and the buffer.
proof fn lemma_pack_total(t: Seq<char>, max: nat, a: int, buf: Seq<char>)
    requires
        0 <= a,
    ensures
        a <= t.len() ==> total_bytes(pack_lines(t, max, a, buf)) <= byte_len(
            t.subrange(a, t.len() as int),
        ) + byte_len(buf),
        a > t.len() ==> total_bytes(pack_lines(t, max, a, buf)) <= byte_len(buf),
    decreases t.len() + 1 - a,
{
    if a >= t.len() {
        lemma_flush_total(buf);
    } else {
        lemma_line_bounds(t, a);
        let e = line_end(t, a);
        let stop = line_stop(t, a);
        let line = t.subrange(a, e);
        let with_nl = line.push('\n');
        let next = next_line(t, a);
        lemma_with_newline(line);
        lemma_pack_total(t, max, next, Seq::empty());
        lemma_pack_total(t, max, next, with_nl);
        lemma_pack_total(t, max, next, buf + with_nl);
        lemma_byte_len_concat(buf, with_nl);
        lemma_flush_total(buf);
        lemma_char_split_total(line, max);
        lemma_byte_len_subrange(t, a, e);
        lemma_byte_len_subrange(t, e, stop);
        lemma_byte_len_subrange(t, a, t.len() as int);
        lemma_byte_len_subrange(t, stop, t.len() as int);
        if stop < t.len() {
            lemma_byte_len_subrange(t, next, t.len() as int);
            lemma_byte_offset_step(t, stop);
        } else {
            assert(pack_lines(t, max, next, with_nl) == flush(with_nl));
            assert(pack_lines(t, max, next, buf + with_nl) == flush(buf + with_nl));
            assert(with_nl.last() == '\n');
            assert((buf + with_nl).last() == '\n');
            lemma_flush_total(with_nl);
            lemma_flush_total(buf + with_nl);
        }
        assert(byte_len(Seq::<char>::empty()) == 0);
        if byte_len(buf) + byte_len(with_nl) > max {
            if byte_len(line) > max {
                lemma_total_concat(flush(buf), char_split(line, max));
                lemma_total_concat(
                    flush(buf) + char_split(line, max),
                    pack_lines(t, max, next, Seq::empty()),
                );
            } else {
                lemma_total_concat(flush(buf), pack_lines(t, max, next, with_nl));
            }
        }
    }
}

/// The parts of `t` hold no more bytes than `t`.
pub proof fn lemma_split_total(t: Seq<char>, max: nat)
    ensures
        total_bytes(split_parts(t, max)) <= byte_len(t),
{
    if byte_len(t) <= max {
        lemma_total_single(t);
    } else {
        lemma_pack_total(t, max, 0, Seq::empty());
        assert(t.subrange(0, t.len() as int) =~= t);
        assert(byte_len(Seq::<char>::empty()) == 0);
    }
}

/// Every part in `parts` holds at most `max` bytes.
pub open spec fn all_within(parts: Seq<Seq<char>>, max: nat) -> bool {
    forall|i: int| 0 <= i < parts.len() ==> byte_len(#[trigger] parts[i]) <= max
}

proof fn lemma_char_split_within(l: Seq<char>, max: nat)
    requires
        max >= 4,
    ensures
        all_within(char_split(l, max), max),
    decreases l.len(),
{
    if l.len() > 0 {
        lemma_prefix_within(l, max as int);
        lemma_byte_offset_step(l, 0);
        assert(l.take(0) =~= Seq::<char>::empty());
        assert(byte_len(Seq::<char>::empty()) == 0);
        let k = part_take(l, max) as int;
        assert(k == prefix_within(l, max as int));
        lemma_char_split_within(l.skip(k), max);
        let r = char_split(l, max);
        assert forall|i: int| 0 <= i < r.len() implies byte_len(#[trigger] r[i]) <= max by {
            if i > 0 {
                assert(r[i] == char_split(l.skip(k), max)[i - 1]);
            }
        }
    }
}

proof fn lemma_flush_within(buf: Seq<char>, max: nat)
    requires
        buf.len() == 0 || (buf.last() == '\n' && byte_len(buf) <= max + 1),
    ensures
        all_within(flush(buf), max),
{
    lemma_flush_total(buf);
    if buf.len() > 0 {
        lemma_total_single(trim_end(buf));
    }
}

proof fn lemma_pack_within(t: Seq<char>, max: nat, a: int, buf: Seq<char>)
    requires
        max >= 4,
        buf.len() == 0 || (buf.last() == '\n' && byte_len(buf) <= max + 1),
    ensures
        all_within(pack_lines(t, max, a, buf), max),
    decreases t.len() + 1 - a,
{
    lemma_flush_within(buf, max);
    if 0 <= a < t.len() {
        lemma_line_bounds(t, a);
        let line = t.subrange(a, line_end(t, a));
        let with_nl = line.push('\n');
        let next = next_line(t, a);
        lemma_with_newline(line);
        lemma_byte_len_concat(buf, with_nl);
        assert(with_nl.last() == '\n');
        assert((buf + with_nl).last() == '\n');
        assert(byte_len(Seq::<char>::empty()) == 0);
        if byte_len(buf) + byte_len(with_nl) > max {
            if byte_len(line) > max {
                lemma_char_split_within(line, max);
                lemma_pack_within(t, max, next, Seq::empty());
            } else {
                lemma_pack_within(t, max, next, with_nl);
            }
        } else {
            lemma_pack_within(t, max, next, buf + with_nl);
        }
    }
}

/// Every part that `recursive_split` returns holds at most `max` bytes, whenever a
/// single character fits in `max` bytes.
pub proof fn lemma_split_parts_within(t: Seq<char>, max: nat)
    requires
        max >= 4,
    ensures
        all_within(split_parts(t, max), max),
{
    if byte_len(t) > max {
        lemma_pack_within(t, max, 0, Seq::empty());
    }
}

proof fn lemma_char_split_rejoins(l: Seq<char>, max: nat)
    ensures
        char_split(l, max).flatten() == l,
    decreases l.len(),
{
    if l.len() > 0 {
        lemma_prefix_within(l, max as int);
        let k = part_take(l, max) as int;
        lemma_char_split_rejoins(l.skip(k), max);
        let r = char_split(l, max);
        assert(r.drop_first() =~= char_split(l.skip(k), max));
        assert(r.first() == l.take(k));
        assert(l =~= l.take(k) + l.skip(k));
    }
}

/// Text without line feeds comes back exactly when the parts of `recursive_split` are
/// joined in order: no character is lost, added or cut.
pub proof fn lemma_split_rejoins(t: Seq<char>, max: nat)
    requires
        forall|i: int| 0 <= i < t.len() ==> t[i] != '\n',
    ensures
        split_parts(t, max).flatten() == t,
{
    if byte_len(t) <= max {
        assert(seq![t].drop_first() =~= Seq::<Seq<char>>::empty());
        assert(Seq::<Seq<char>>::empty().flatten() =~= Seq::<char>::empty());
        assert(t + Seq::<char>::empty() =~= t);
    } else {
        lemma_line_bounds(t, 0);
        assert(t.len() > 0);
        let stop = line_stop(t, 0);
        assert(stop == t.len());
        assert(line_end(t, 0) == t.len());
        assert(t.subrange(0, t.len() as int) =~= t);
        lemma_with_newline(t);
        assert(byte_len(Seq::<char>::empty()) == 0);
        let cs = char_split(t, max);
        assert(pack_lines(t, max, 0, Seq::empty()) == Seq::<Seq<char>>::empty() + cs
            + pack_lines(t, max, t.len() as int + 1, Seq::empty()));
        assert(pack_lines(t, max, t.len() as int + 1, Seq::empty()) =~= Seq::<Seq<char>>::empty());
        assert(Seq::<Seq<char>>::empty() + cs + Seq::<Seq<char>>::empty() =~= cs);
        lemma_char_split_rejoins(t, max);
    }
}

/// Each `parts[k]` is the run of characters of `t` that starts at index `starts[k]`, all
/// within `lo..hi`; the runs come in order and do not overlap.
pub open spec fn runs_of(t: Seq<char>, parts: Seq<Seq<char>>, starts: Seq<int>, lo: int, hi: int) -> bool {
    &&& starts.len() == parts.len()
    &&& forall|k: int|
        0 <= k < parts.len() ==> lo <= #[trigger] starts[k] && starts[k] + parts[k].len() <= hi
            && t.subrange(starts[k], starts[k] + parts[k].len()) == parts[k]
    &&& forall|k: int|
        0 <= k < parts.len() - 1 ==> starts[k] + parts[k].len() <= #[trigger] starts[k + 1]
}

proof fn lemma_runs_concat(
    t: Seq<char>,
    x: Seq<Seq<char>>,
    sx: Seq<int>,
    y: Seq<Seq<char>>,
    sy: Seq<int>,
    lo: int,
    m: int,
    hi: int,
)
    requires
        lo <= m <= hi,
        runs_of(t, x, sx, lo, m),
        runs_of(t, y, sy, m, hi),
    ensures
        runs_of(t, x + y, sx + sy, lo, hi),
{
    let p = x + y;
    let q = sx + sy;
    assert forall|k: int| 0 <= k < p.len() implies lo <= #[trigger] q[k] && q[k] + p[k].len() <= hi
        && t.subrange(q[k], q[k] + p[k].len()) == p[k] by {
        if k < x.len() {
            assert(q[k] == sx[k] && p[k] == x[k]);
        } else {
            assert(q[k] == sy[k - x.len()] && p[k] == y[k - x.len()]);
        }
    }
    assert forall|k: int| 0 <= k < p.len() - 1 implies q[k] + p[k].len() <= #[trigger] q[k + 1] by {
        if k + 1 < x.len() {
            assert(q[k] == sx[k] && p[k] == x[k] && q[k + 1] == sx[k + 1]);
            assert(sx[k] + x[k].len() <= sx[k + 1]);
        } else if k + 1 == x.len() {
            assert(q[k] == sx[k] && p[k] == x[k] && q[k + 1] == sy[0]);
            assert(m <= sy[0]);
        } else {
            let j = k - x.len();
            assert(q[k] == sy[j] && p[k] == y[j]);
            assert(q[k + 1] == sy[j + 1]);
            assert(sy[j] + y[j].len() <= sy[j + 1]);
        }
    }
}

proof fn lemma_trim_end_at_same(x: Seq<char>, y: Seq<char>, j: int)
    requires
        0 <= j <= x.len(),
        j <= y.len(),
        x.take(j) == y.take(j),
    ensures
        trim_end_at(x, 0, j) == trim_end_at(y, 0, j),
    decreases j,
{
    if j > 0 {
        assert(x[j - 1] == x.take(j)[j - 1]);
        assert(y[j - 1] == y.take(j)[j - 1]);
        assert(x.take(j - 1) =~= x.take(j).take(j - 1));
        assert(y.take(j - 1) =~= y.take(j).take(j - 1));
        lemma_trim_end_at_same(x, y, j - 1);
    }
}

/// A trailing line feed makes no difference once trailing whitespace is trimmed.
proof fn lemma_trim_end_newline(x: Seq<char>)
    ensures
        trim_end(x.push('\n')) == trim_end(x),
{
    let y = x.push('\n');
    let n = x.len() as int;
    assert(y.take(n) =~= x.take(n));
    lemma_trim_end_at_same(x, y, n);
    lemma_trim_end_bounds(x, 0, n);
    let k = trim_end_at(x, 0, n);
    assert(y.take(k) =~= x.take(k));
}

/// The flushed buffer, when it is the text `b0..a`, is a run within it.
proof fn lemma_flush_runs(t: Seq<char>, b0: int, a: int) -> (starts: Seq<int>)
    requires
        0 <= b0 <= a <= t.len(),
    ensures
        runs_of(t, flush(t.subrange(b0, a)), starts, b0, a),
{
    let buf = t.subrange(b0, a);
    if buf.len() > 0 {
        let k = trim_end_at(buf, 0, buf.len() as int);
        lemma_trim_end_bounds(buf, 0, buf.len() as int);
        assert(trim_end(buf) =~= t.subrange(b0, b0 + k));
        seq![b0]
    } else {
        Seq::empty()
    }
}

proof fn lemma_char_split_runs(t: Seq<char>, a: int, e: int, max: nat) -> (starts: Seq<int>)
    requires
        0 <= a <= e <= t.len(),
    ensures
        runs_of(t, char_split(t.subrange(a, e), max), starts, a, e),
    decreases e - a,
{
    let l = t.subrange(a, e);
    if l.len() == 0 {
        Seq::empty()
    } else {
        lemma_prefix_within(l, max as int);
        let k = part_take(l, max) as int;
        assert(l.skip(k) =~= t.subrange(a + k, e));
        assert(l.take(k) =~= t.subrange(a, a + k));
        let rest = lemma_char_split_runs(t, a + k, e, max);
        let first: Seq<int> = seq![a];
        assert(runs_of(t, seq![l.take(k)], first, a, a + k));
        lemma_runs_concat(t, seq![l.take(k)], first, char_split(l.skip(k), max), rest, a, a + k, e);
        first + rest
    }
}

proof fn lemma_pack_runs(t: Seq<char>, max: nat, a: int, b0: int) -> (starts: Seq<int>)
    requires
        forall|i: int| 0 <= i < t.len() ==> t[i] != '\r',
        0 <= b0 <= a <= t.len(),
    ensures
        runs_of(t, pack_lines(t, max, a, t.subrange(b0, a)), starts, b0, t.len() as int),
    decreases t.len() - a,
{
    let buf = t.subrange(b0, a);
    let n = t.len() as int;
    if a == n {
        let s = lemma_flush_runs(t, b0, a);
        s
    } else {
        lemma_line_bounds(t, a);
        let stop = line_stop(t, a);
        assert(line_end(t, a) == stop);
        let line = t.subrange(a, stop);
        let with_nl = line.push('\n');
        let next = next_line(t, a);
        let fl = lemma_flush_runs(t, b0, a);
        let empty: Seq<Seq<char>> = Seq::empty();
        let none: Seq<int> = Seq::empty();
        if stop < n {
            assert(with_nl =~= t.subrange(a, next));
            assert(buf + with_nl =~= t.subrange(b0, next));
            assert(Seq::<char>::empty() =~= t.subrange(next, next));
            if byte_len(buf) + byte_len(with_nl) > max {
                if byte_len(line) > max {
                    let cs = lemma_char_split_runs(t, a, stop, max);
                    let rest = lemma_pack_runs(t, max, next, next);
                    lemma_runs_concat(t, flush(buf), fl, char_split(line, max), cs, b0, a, stop);
                    lemma_runs_concat(
                        t,
                        flush(buf) + char_split(line, max),
                        fl + cs,
                        pack_lines(t, max, next, Seq::empty()),
                        rest,
                        b0,
                        stop,
                        n,
                    );
                    fl + cs + rest
                } else {
                    let rest = lemma_pack_runs(t, max, next, a);
                    lemma_runs_concat(t, flush(buf), fl, pack_lines(t, max, next, with_nl), rest, b0, a, n);
                    fl + rest
                }
            } else {
                lemma_pack_runs(t, max, next, b0)
            }
        } else {
            assert(line =~= t.subrange(a, n));
            if byte_len(buf) + byte_len(with_nl) > max {
                if byte_len(line) > max {
                    let cs = lemma_char_split_runs(t, a, stop, max);
                    assert(pack_lines(t, max, next, Seq::empty()) =~= empty);
                    lemma_runs_concat(t, flush(buf), fl, char_split(line, max), cs, b0, a, n);
                    assert(flush(buf) + char_split(line, max) + empty =~= flush(buf) + char_split(line, max));
                    assert(fl + cs + none =~= fl + cs);
                    fl + cs + none
                } else {
                    lemma_trim_end_newline(line);
                    let last = lemma_flush_runs(t, a, n);
                    assert(pack_lines(t, max, next, with_nl) == flush(with_nl));
                    assert(flush(with_nl) == flush(line));
                    lemma_runs_concat(t, flush(buf), fl, flush(line), last, b0, a, n);
                    fl + last
                }
            } else {
                assert(buf + line =~= t.subrange(b0, n));
                assert(buf + with_nl =~= (buf + line).push('\n'));
                lemma_trim_end_newline(buf + line);
                assert(pack_lines(t, max, next, buf + with_nl) == flush(buf + with_nl));
                assert(flush(buf + with_nl) == flush(t.subrange(b0, n)));
                lemma_flush_runs(t, b0, n)
            }
        }
    }
}

/// For text without carriage returns, every part that `recursive_split` returns is a run
/// of whole characters of the text, and the runs come in order without overlapping:
/// no character is cut or shared between two parts.
pub proof fn lemma_split_runs(t: Seq<char>, max: nat) -> (starts: Seq<int>)
    requires
        forall|i: int| 0 <= i < t.len() ==> t[i] != '\r',
    ensures
        runs_of(t, split_parts(t, max), starts, 0, t.len() as int),
{
    if byte_len(t) <= max {
        let starts: Seq<int> = seq![0];
        assert(t.subrange(0, t.len() as int) =~= t);
        starts
    } else {
        assert(t.subrange(0, 0) =~= Seq::<char>::empty());
        lemma_pack_runs(t, max, 0, 0)
    }
}

} // verus!
