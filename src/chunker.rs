//! Heading-aware segmentation of a Markdown document into bounded chunks.
use vstd::prelude::*;
use vstd::string::*;
use crate::config::{PART_MAX_BYTES, SEGMENT_MAX_BYTES};
use crate::splitter::{
    lemma_split_parts_within, lemma_split_total, recursive_split, split_parts, total_bytes, views,
};
use crate::text::{
    byte_len, byte_offset, char_len_utf8, chars_of, find_line_end, find_line_stop,
    lemma_byte_len_subrange, lemma_byte_offset_full, lemma_skip_char_bounds, lemma_byte_offset_step, lemma_line_bounds,
    lemma_prefix_within, lemma_prefix_within_mono, lemma_prefix_within_unique, line_end, line_stop, next_line,
    prefix_within, range_byte_len, skip_char, skip_char_exec, skip_space, skip_space_exec,
    str_byte_len, substring_at, byte_offsets, trim_end_at, trim_end_exec,
};

verus! {

/// A bounded span of a document, with the path of headings it stands under.
#[derive(Debug, Clone, PartialEq)]
pub struct Chunk {
    pub content: String,
    /// Formatted headings, shallowest first.
    pub header_path: Vec<String>,
    /// Byte offset in the document where the chunk starts.
    pub start_pos: usize,
    /// Byte offset in the document where the chunk ends.
    pub end_pos: usize,
}

/// A chunk as mathematical values: characters, labels and byte offsets.
pub struct ChunkView {
    pub content: Seq<char>,
    pub header_path: Seq<Seq<char>>,
    pub start_pos: nat,
    pub end_pos: nat,
}

impl View for Chunk {
    type V = ChunkView;

    open spec fn view(&self) -> ChunkView {
        ChunkView {
            content: self.content@,
            header_path: views(self.header_path@),
            start_pos: self.start_pos as nat,
            end_pos: self.end_pos as nat,
        }
    }
}

/// A heading line: its level (the number of markers), its trimmed label, and the byte
/// offset of its line.
#[derive(Debug, Clone, PartialEq)]
pub struct Header {
    pub level: usize,
    pub text: String,
    pub position: usize,
}

/// A heading as mathematical values.
pub struct HeaderView {
    pub level: nat,
    pub text: Seq<char>,
    pub position: nat,
}

impl View for Header {
    type V = HeaderView;

    open spec fn view(&self) -> HeaderView {
        HeaderView { level: self.level as nat, text: self.text@, position: self.position as nat }
    }
}

/// The views of a list of headings.
pub open spec fn header_views(v: Seq<Header>) -> Seq<HeaderView> {
    v.map_values(|h: Header| h@)
}

/// The views of a list of chunks.
pub open spec fn chunk_views(v: Seq<Chunk>) -> Seq<ChunkView> {
    v.map_values(|c: Chunk| c@)
}

/// The heading that the line `t[a..e]` holds, if any: once leading whitespace is
/// skipped the line starts with `#`; the level is the number of `#` in a row; the label
/// is the rest, trimmed, and must not be empty.
pub open spec fn heading_at(t: Seq<char>, a: int, e: int) -> Option<(nat, Seq<char>)> {
    let m = skip_space(t, a, e);
    if m < e && t[m] == '#' {
        let h = skip_char(t, '#', m, e);
        let ls = skip_space(t, h, e);
        let le = trim_end_at(t, h, e);
        if ls < le {
            Some(((h - m) as nat, t.subrange(ls, le)))
        } else {
            None
        }
    } else {
        None
    }
}

/// The headings among the lines of `t` from the line that starts at `a`, whose byte
/// offset is `pos`; each line counts for its length plus one terminator byte.
pub open spec fn headers_from(t: Seq<char>, a: int, pos: nat) -> Seq<HeaderView>
    decreases t.len() + 1 - a,
{
    if a < 0 || a >= t.len() {
        Seq::empty()
    } else {
        proof {
            lemma_line_bounds(t, a);
        }
        let e = line_end(t, a);
        let rest = headers_from(t, next_line(t, a), pos + byte_len(t.subrange(a, e)) + 1);
        match heading_at(t, a, e) {
            Some(hd) => seq![HeaderView { level: hd.0, text: hd.1, position: pos }] + rest,
            None => rest,
        }
    }
}

/// The headings of a document, in order.
pub open spec fn headers_of(t: Seq<char>) -> Seq<HeaderView> {
    headers_from(t, 0, 0)
}

/// A heading as it stands in a path: its markers, a space, and its label.
pub open spec fn formatted(h: HeaderView) -> Seq<char> {
    Seq::new(h.level, |i: int| '#') + seq![' '] + h.text
}

/// `stack` once every entry at `level` or deeper is popped from its top.
pub open spec fn pop_deeper(stack: Seq<(nat, Seq<char>)>, level: nat) -> Seq<(nat, Seq<char>)>
    decreases stack.len(),
{
    if stack.len() > 0 && stack.last().0 >= level {
        pop_deeper(stack.drop_last(), level)
    } else {
        stack
    }
}

/// The stack of open headings once heading `i` is processed: each heading pops the
/// headings at its level or deeper, then is pushed.
pub open spec fn stack_after(hs: Seq<HeaderView>, i: int) -> Seq<(nat, Seq<char>)>
    decreases i + 1,
{
    if i < 0 {
        Seq::empty()
    } else {
        pop_deeper(stack_after(hs, i - 1), hs[i].level).push((hs[i].level, formatted(hs[i])))
    }
}

/// The path of heading `i`: the labels on the stack right after it is pushed.
pub open spec fn path_of(hs: Seq<HeaderView>, i: int) -> Seq<Seq<char>> {
    stack_after(hs, i).map_values(|e: (nat, Seq<char>)| e.1)
}

/// Char index where the segment of heading `i` starts: its byte offset, taken back to a
/// character boundary.
pub open spec fn seg_start(t: Seq<char>, hs: Seq<HeaderView>, i: int) -> int {
    prefix_within(t, hs[i].position as int) as int
}

/// Char index where the segment of heading `i` ends: the start of the next heading's
/// segment, whatever its level, or the end of the document.
pub open spec fn seg_end(t: Seq<char>, hs: Seq<HeaderView>, i: int) -> int {
    if i + 1 < hs.len() {
        seg_start(t, hs, i + 1)
    } else {
        t.len() as int
    }
}

/// Chunks for consecutive parts that start at byte `pos`.
pub open spec fn part_chunks(parts: Seq<Seq<char>>, path: Seq<Seq<char>>, pos: nat) -> Seq<
    ChunkView,
>
    decreases parts.len(),
{
    if parts.len() == 0 {
        Seq::empty()
    } else {
        let end = pos + byte_len(parts[0]);
        seq![ChunkView { content: parts[0], header_path: path, start_pos: pos, end_pos: end }]
            + part_chunks(parts.drop_first(), path, end)
    }
}

/// The chunks of the segment of heading `i`: the segment itself when it has at most
/// `SEGMENT_MAX_BYTES` bytes, else its parts of at most `PART_MAX_BYTES` bytes.
pub open spec fn segment_chunks(t: Seq<char>, hs: Seq<HeaderView>, i: int) -> Seq<ChunkView> {
    let a = seg_start(t, hs, i);
    let b = seg_end(t, hs, i);
    let seg = t.subrange(a, b);
    let path = path_of(hs, i);
    if byte_len(seg) > SEGMENT_MAX_BYTES {
        part_chunks(split_parts(seg, PART_MAX_BYTES as nat), path, byte_offset(t, a))
    } else {
        seq![
            ChunkView {
                content: seg,
                header_path: path,
                start_pos: byte_offset(t, a),
                end_pos: byte_offset(t, b),
            },
        ]
    }
}

/// The chunks of the segments of headings `i` onwards.
pub open spec fn chunks_from(t: Seq<char>, hs: Seq<HeaderView>, i: int) -> Seq<ChunkView>
    decreases hs.len() - i,
{
    if i < 0 || i >= hs.len() {
        Seq::empty()
    } else {
        segment_chunks(t, hs, i) + chunks_from(t, hs, i + 1)
    }
}

/// The chunks of a document: none for an empty one; without headings, the whole
/// document, split into parts when longer than `PART_MAX_BYTES`; otherwise one or more
/// per heading segment, text before the first heading left out.
pub open spec fn chunks_of(t: Seq<char>) -> Seq<ChunkView> {
    let hs = headers_of(t);
    if t.len() == 0 {
        Seq::empty()
    } else if hs.len() == 0 {
        if byte_len(t) <= PART_MAX_BYTES {
            seq![ChunkView { content: t, header_path: Seq::empty(), start_pos: 0, end_pos: byte_len(t) }]
        } else {
            part_chunks(split_parts(t, PART_MAX_BYTES as nat), Seq::empty(), 0)
        }
    } else {
        chunks_from(t, hs, 0)
    }
}

/// Finds the heading lines of `content`, in document order.
pub fn extract_headers(content: &str) -> (headers: Vec<Header>)
    ensures
        header_views(headers@) == headers_of(content@),
{
    let t = chars_of(content);
    let n = str_byte_len(content);
    let offs = byte_offsets(&t);
    let mut headers: Vec<Header> = Vec::new();
    let mut a: usize = 0;
    let mut pos: usize = 0;
    proof {
        assert(header_views(headers@) + headers_from(t@, 0, 0) =~= headers_of(content@));
    }
    while a < t.len()
        invariant
            t@ == content@,
            n == byte_len(t@),
            offs@.len() == content@.len() + 1,
            forall|k: int| 0 <= k <= content@.len() ==> #[trigger] offs@[k] == byte_offset(content@, k),
            a <= t@.len(),
            pos <= byte_offset(t@, a as int),
            headers_of(content@) == header_views(headers@) + headers_from(t@, a as int, pos as nat),
        decreases t@.len() - a,
    {
        let stop = find_line_stop(&t, a);
        let e = find_line_end(&t, a, stop);
        proof {
            lemma_line_bounds(t@, a as int);
            lemma_byte_len_subrange(t@, 0, a as int);
            lemma_byte_len_subrange(t@, a as int, t@.len() as int);
            lemma_byte_offset_full(t@);
        }
        let ghost before = header_views(headers@);
        let m = skip_space_exec(&t, a, e);
        if m < e && t[m] == '#' {
            let h = skip_char_exec(&t, '#', m, e);
            let ls = skip_space_exec(&t, h, e);
            let le = trim_end_exec(&t, h, e);
            if ls < le {
                let text = substring_at(content, &offs, ls, le);
                headers.push(Header { level: h - m, text, position: pos });
                proof {
                    assert(header_views(headers@) =~= before.push(headers@.last()@));
                }
            }
        }
        let ghost old_a = a;
        let ghost old_pos = pos;
        if stop < t.len() {
            let line_bytes = range_byte_len(&t, a, e);
            proof {
                lemma_byte_len_subrange(t@, a as int, e as int);
                lemma_byte_len_subrange(t@, e as int, stop as int);
                lemma_byte_len_subrange(t@, stop as int, stop as int + 1);
                lemma_byte_len_subrange(t@, 0, stop as int + 1);
                lemma_byte_offset_step(t@, stop as int);
                lemma_byte_len_subrange(t@, stop as int + 1, t@.len() as int);
                lemma_byte_len_subrange(t@, a as int, stop as int);
                assert(t@[stop as int] == '\n');
                assert(byte_offset(t@, stop as int + 1) == byte_offset(t@, stop as int) + 1);
                assert(byte_offset(t@, stop as int) == byte_offset(t@, a as int) + byte_len(
                    t@.subrange(a as int, e as int),
                ) + byte_len(t@.subrange(e as int, stop as int)));
            }
            pos = pos + line_bytes + 1;
            a = stop + 1;
        } else {
            a = stop;
        }
        proof {
            assert(headers_from(t@, next_line(t@, old_a as int), (old_pos + byte_len(
                t@.subrange(old_a as int, e as int),
            ) + 1) as nat) == headers_from(t@, a as int, pos as nat));
            assert(headers_of(content@) =~= header_views(headers@) + headers_from(
                t@,
                a as int,
                pos as nat,
            ));
        }
    }
    headers
}

/// Heading offsets rise strictly, start at `pos` or later, and stay within the document;
/// every level is at least one.
pub proof fn lemma_headers_from_positions(t: Seq<char>, a: int, pos: nat)
    requires
        0 <= a,
        a <= t.len() ==> pos <= byte_offset(t, a),
    ensures
        forall|i: int|
            0 <= i < headers_from(t, a, pos).len() ==> #[trigger] headers_from(t, a, pos)[i].level
                >= 1,
        forall|i: int|
            0 <= i < headers_from(t, a, pos).len() ==> pos <= #[trigger] headers_from(
                t,
                a,
                pos,
            )[i].position <= byte_len(t),
        forall|i: int, j: int|
            0 <= i < j < headers_from(t, a, pos).len() ==> #[trigger] headers_from(
                t,
                a,
                pos,
            )[i].position < #[trigger] headers_from(t, a, pos)[j].position,
    decreases t.len() + 1 - a,
{
    if a < t.len() {
        lemma_line_bounds(t, a);
        let e = line_end(t, a);
        let stop = line_stop(t, a);
        let next = next_line(t, a);
        let pos2 = pos + byte_len(t.subrange(a, e)) + 1;
        lemma_byte_len_subrange(t, a, e);
        lemma_byte_len_subrange(t, e, stop);
        lemma_byte_len_subrange(t, a, stop);
        lemma_byte_len_subrange(t, a, t.len() as int);
        lemma_byte_offset_full(t);
        if stop < t.len() {
            lemma_byte_offset_step(t, stop);
            lemma_byte_len_subrange(t, stop + 1, t.len() as int);
        }
        lemma_headers_from_positions(t, next, pos2);
        let rest = headers_from(t, next, pos2);
        let r = headers_from(t, a, pos);
        match heading_at(t, a, e) {
            Some(hd) => {
                let m = skip_space(t, a, e);
                lemma_skip_char_bounds(t, '#', m + 1, e);
                assert(r == seq![HeaderView { level: hd.0, text: hd.1, position: pos }] + rest);
                assert forall|i: int| 0 < i < r.len() implies r[i] == rest[i - 1] by {}
            },
            None => {},
        }
    }
}

/// Formats heading `h` for a path: its markers, a space, and its label.
fn format_heading(h: &Header) -> (r: String)
    ensures
        r@ == formatted(h@),
{
    let mut r = String::new();
    let hash = "#";
    let space = " ";
    proof {
        reveal_strlit("#");
        reveal_strlit(" ");
    }
    let mut j: usize = 0;
    while j < h.level
        invariant
            j <= h.level,
            r@ == Seq::new(j as nat, |i: int| '#'),
            hash@ == seq!['#'],
        decreases h.level - j,
    {
        r.append(hash);
        j = j + 1;
        proof {
            assert(r@ =~= Seq::new(j as nat, |i: int| '#'));
        }
    }
    r.append(space);
    r.append(h.text.as_str());
    proof {
        assert(r@ =~= formatted(h@));
    }
    r
}

/// The views of the entries of a heading stack.
pub open spec fn stack_views(v: Seq<(usize, String)>) -> Seq<(nat, Seq<char>)> {
    v.map_values(|e: (usize, String)| (e.0 as nat, e.1@))
}

/// The labels on the stack, copied.
fn stack_labels(stack: &Vec<(usize, String)>) -> (r: Vec<String>)
    ensures
        views(r@) == stack_views(stack@).map_values(|e: (nat, Seq<char>)| e.1),
{
    let mut r: Vec<String> = Vec::new();
    let mut i: usize = 0;
    while i < stack.len()
        invariant
            i <= stack@.len(),
            views(r@) == stack_views(stack@).map_values(|e: (nat, Seq<char>)| e.1).take(i as int),
        decreases stack@.len() - i,
    {
        let label = stack[i].1.clone();
        let ghost before = views(r@);
        r.push(label);
        i = i + 1;
        proof {
            assert(views(r@) =~= before.push(label@));
            assert(views(r@) =~= stack_views(stack@).map_values(|e: (nat, Seq<char>)| e.1).take(
                i as int,
            ));
        }
    }
    proof {
        assert(views(r@) =~= stack_views(stack@).map_values(|e: (nat, Seq<char>)| e.1));
    }
    r
}

/// A copy of a list of strings.
fn copy_strings(v: &Vec<String>) -> (r: Vec<String>)
    ensures
        views(r@) == views(v@),
{
    let mut r: Vec<String> = Vec::new();
    let mut i: usize = 0;
    while i < v.len()
        invariant
            i <= v@.len(),
            views(r@) == views(v@).take(i as int),
        decreases v@.len() - i,
    {
        let s = v[i].clone();
        let ghost before = views(r@);
        r.push(s);
        i = i + 1;
        proof {
            assert(views(r@) =~= before.push(s@));
            assert(views(r@) =~= views(v@).take(i as int));
        }
    }
    proof {
        assert(views(r@) =~= views(v@));
    }
    r
}

/// The character index and byte offset of the last character boundary at or before
/// byte `p`, searched forward from index `k` (byte offset `kb`).
pub(crate) fn boundary_at(t: &Vec<char>, from: usize, from_b: usize, p: usize) -> (r: (usize, usize))
    requires
        from <= t@.len(),
        from_b == byte_offset(t@, from as int),
        from_b <= p,
    ensures
        r.0 == prefix_within(t@, p as int),
        r.1 == byte_offset(t@, r.0 as int),
        from <= r.0 <= t@.len(),
{
    let mut k = from;
    let mut kb = from_b;
    while k < t.len() && char_len_utf8(t[k]) <= p - kb
        invariant
            from <= k <= t@.len(),
            kb == byte_offset(t@, k as int),
            kb <= p,
        decreases t@.len() - k,
    {
        proof {
            lemma_byte_offset_step(t@, k as int);
        }
        kb = kb + char_len_utf8(t[k]);
        k = k + 1;
    }
    proof {
        if k < t@.len() {
            lemma_byte_offset_step(t@, k as int);
        }
        lemma_prefix_within_unique(t@, p as int, k as int);
    }
    (k, kb)
}

/// Appends one chunk per part, consecutive from byte `start`, each under `path`.
fn push_part_chunks(chunks: &mut Vec<Chunk>, parts: &Vec<String>, path: &Vec<String>, start: usize)
    requires
        start + total_bytes(views(parts@)) <= usize::MAX,
    ensures
        chunk_views(final(chunks)@) == chunk_views(old(chunks)@) + part_chunks(
            views(parts@),
            views(path@),
            start as nat,
        ),
{
    let ghost all = views(parts@);
    let mut pos = start;
    let mut i: usize = 0;
    proof {
        assert(all.skip(0) =~= all);
        assert(chunk_views(chunks@) + part_chunks(all.skip(0), views(path@), pos as nat)
            =~= chunk_views(old(chunks)@) + part_chunks(all, views(path@), start as nat));
    }
    while i < parts.len()
        invariant
            all == views(parts@),
            i <= parts@.len(),
            pos + total_bytes(all.skip(i as int)) <= usize::MAX,
            chunk_views(chunks@) + part_chunks(all.skip(i as int), views(path@), pos as nat)
                == chunk_views(old(chunks)@) + part_chunks(all, views(path@), start as nat),
        decreases parts@.len() - i,
    {
        let ghost rest = all.skip(i as int);
        proof {
            assert(rest.drop_first() =~= all.skip(i + 1));
            assert(rest[0] == parts@[i as int]@);
        }
        let part = parts[i].clone();
        let len = str_byte_len(part.as_str());
        let end = pos + len;
        let ghost before = chunk_views(chunks@);
        chunks.push(Chunk { content: part, header_path: copy_strings(path), start_pos: pos, end_pos: end });
        proof {
            assert(chunk_views(chunks@) =~= before.push(chunks@.last()@));
            assert(chunk_views(chunks@) + part_chunks(all.skip(i + 1), views(path@), end as nat)
                =~= before + part_chunks(rest, views(path@), pos as nat));
        }
        pos = end;
        i = i + 1;
    }
    proof {
        assert(all.skip(i as int) =~= Seq::<Seq<char>>::empty());
        assert(chunk_views(chunks@) =~= chunk_views(chunks@) + part_chunks(
            all.skip(i as int),
            views(path@),
            pos as nat,
        ));
    }
}

/// Splits `content` into one or more chunks per heading segment, each under the path of
/// its heading, computed in a single pass with one stack of open headings.
fn split_by_headers(content: &str, headers: Vec<Header>) -> (chunks: Vec<Chunk>)
    requires
        header_views(headers@) == headers_of(content@),
    ensures
        chunk_views(chunks@) == chunks_from(content@, headers_of(content@), 0),
{
    let ghost hs = headers_of(content@);
    let t = chars_of(content);
    let n = str_byte_len(content);
    let offs = byte_offsets(&t);
    let mut chunks: Vec<Chunk> = Vec::new();
    let mut stack: Vec<(usize, String)> = Vec::new();
    proof {
        lemma_headers_from_positions(t@, 0, 0);
        assert(t@.take(0) =~= Seq::<char>::empty());
        assert(byte_offset(t@, 0) == 0);
        lemma_byte_offset_full(t@);
    }
    if headers.len() == 0 {
        return chunks;
    }
    proof {
        assert(headers@[0]@ == hs[0]);
    }
    let first = boundary_at(&t, 0, 0, headers[0].position);
    let mut k = first.0;
    let mut kb = first.1;
    let mut i: usize = 0;
    proof {
        assert(chunk_views(chunks@) + chunks_from(t@, hs, 0) =~= chunks_from(t@, hs, 0));
        assert(stack_views(stack@) =~= stack_after(hs, -1));
    }
    while i < headers.len()
        invariant
            t@ == content@,
            n == byte_len(t@),
            offs@.len() == content@.len() + 1,
            forall|k: int| 0 <= k <= content@.len() ==> #[trigger] offs@[k] == byte_offset(content@, k),
            hs == headers_of(content@),
            header_views(headers@) == hs,
            forall|j: int| 0 <= j < hs.len() ==> #[trigger] hs[j].position <= byte_len(t@),
            forall|j: int, l: int|
                0 <= j < l < hs.len() ==> #[trigger] hs[j].position < #[trigger] hs[l].position,
            i <= headers@.len(),
            i < headers@.len() ==> k == seg_start(t@, hs, i as int),
            kb == byte_offset(t@, k as int),
            k <= t@.len(),
            stack_views(stack@) == stack_after(hs, i - 1),
            chunk_views(chunks@) + chunks_from(t@, hs, i as int) == chunks_from(t@, hs, 0),
        decreases headers@.len() - i,
    {
        proof {
            assert(headers@[i as int]@ == hs[i as int]);
        }
        let level = headers[i].level;
        let ghost st0 = stack_views(stack@);
        while stack.len() > 0 && stack[stack.len() - 1].0 >= level
            invariant
                pop_deeper(st0, level as nat) == pop_deeper(stack_views(stack@), level as nat),
            decreases stack@.len(),
        {
            let ghost cur = stack_views(stack@);
            stack.pop();
            proof {
                assert(stack_views(stack@) =~= cur.drop_last());
            }
        }
        let f = format_heading(&headers[i]);
        let ghost popped = stack_views(stack@);
        stack.push((level, f));
        proof {
            assert(stack_views(stack@) =~= popped.push((level as nat, f@)));
            assert(stack_views(stack@) == stack_after(hs, i as int));
        }
        let path = stack_labels(&stack);
        proof {
            lemma_prefix_within(t@, hs[i as int].position as int);
        }
        let next = if i + 1 < headers.len() {
            proof {
                assert(headers@[i + 1]@ == hs[i + 1]);
            }
            boundary_at(&t, k, kb, headers[i + 1].position)
        } else {
            (t.len(), n)
        };
        let k2 = next.0;
        let kb2 = next.1;
        proof {
            lemma_byte_len_subrange(t@, k as int, k2 as int);
            lemma_byte_len_subrange(t@, k2 as int, t@.len() as int);
            lemma_byte_offset_full(t@);
            assert(k2 == seg_end(t@, hs, i as int));
            assert(views(path@) == path_of(hs, i as int));
        }
        let seg = substring_at(content, &offs, k, k2);
        proof {
            assert(seg@ == t@.subrange(seg_start(t@, hs, i as int), seg_end(t@, hs, i as int)));
            assert(byte_len(seg@) == kb2 - kb);
        }
        let ghost before = chunk_views(chunks@);
        if kb2 - kb > SEGMENT_MAX_BYTES {
            let parts = recursive_split(seg.as_str(), PART_MAX_BYTES);
            proof {
                lemma_split_total(seg@, PART_MAX_BYTES as nat);
            }
            push_part_chunks(&mut chunks, &parts, &path, kb);
            proof {
                assert(chunk_views(chunks@) =~= before + segment_chunks(t@, hs, i as int));
            }
        } else {
            chunks.push(Chunk { content: seg, header_path: path, start_pos: kb, end_pos: kb2 });
            proof {
                assert(chunk_views(chunks@) =~= before.push(chunks@.last()@));
                assert(chunk_views(chunks@) =~= before + segment_chunks(t@, hs, i as int));
            }
        }
        proof {
            assert(chunks_from(t@, hs, i as int) == segment_chunks(t@, hs, i as int) + chunks_from(t@, hs, i + 1));
            assert(chunk_views(chunks@) + chunks_from(t@, hs, i + 1) =~= before + chunks_from(t@, hs, i as int));
        }
        k = k2;
        kb = kb2;
        i = i + 1;
    }
    proof {
        assert(chunk_views(chunks@) + chunks_from(t@, hs, i as int) =~= chunk_views(chunks@));
    }
    chunks
}

/// Splits a Markdown document into chunks: none for an empty document; a document
/// without headings becomes one chunk, or parts of at most `PART_MAX_BYTES` bytes when
/// longer; otherwise each heading's segment, up to the next heading of any level,
/// becomes one chunk, or parts when longer than `SEGMENT_MAX_BYTES`, under the heading's
/// path. Text before the first heading is left out.
pub fn chunk_markdown(content: &str) -> (chunks: Vec<Chunk>)
    ensures
        chunk_views(chunks@) == chunks_of(content@),
{
    let mut chunks: Vec<Chunk> = Vec::new();
    if content.is_empty() {
        proof {
            assert(chunk_views(chunks@) =~= Seq::<ChunkView>::empty());
        }
        return chunks;
    }
    let headers = extract_headers(content);
    if headers.len() == 0 {
        let n = str_byte_len(content);
        if n <= PART_MAX_BYTES {
            chunks.push(
                Chunk { content: content.to_owned(), header_path: Vec::new(), start_pos: 0, end_pos: n },
            );
            proof {
                assert(views(chunks@[0].header_path@) =~= Seq::<Seq<char>>::empty());
                assert(chunk_views(chunks@) =~= chunks_of(content@));
            }
        } else {
            let parts = recursive_split(content, PART_MAX_BYTES);
            let no_path: Vec<String> = Vec::new();
            proof {
                lemma_split_total(content@, PART_MAX_BYTES as nat);
                assert(views(no_path@) =~= Seq::<Seq<char>>::empty());
            }
            push_part_chunks(&mut chunks, &parts, &no_path, 0);
            proof {
                assert(chunk_views(chunks@) =~= chunks_of(content@));
            }
        }
        return chunks;
    }
    split_by_headers(content, headers)
}

proof fn lemma_part_chunks(parts: Seq<Seq<char>>, path: Seq<Seq<char>>, pos: nat)
    ensures
        part_chunks(parts, path, pos).len() == parts.len(),
        forall|i: int|
            0 <= i < parts.len() ==> {
                let c = #[trigger] part_chunks(parts, path, pos)[i];
                &&& c.content == parts[i]
                &&& c.header_path == path
                &&& pos <= c.start_pos
                &&& c.end_pos == c.start_pos + byte_len(parts[i])
                &&& c.end_pos <= pos + total_bytes(parts)
            },
        parts.len() > 0 ==> part_chunks(parts, path, pos)[0].start_pos == pos,
        forall|i: int|
            0 <= i < parts.len() - 1 ==> (#[trigger] part_chunks(parts, path, pos)[i]).end_pos
                == part_chunks(parts, path, pos)[i + 1].start_pos,
    decreases parts.len(),
{
    if parts.len() > 0 {
        let end = pos + byte_len(parts[0]);
        lemma_part_chunks(parts.drop_first(), path, end);
        let r = part_chunks(parts, path, pos);
        let rest = part_chunks(parts.drop_first(), path, end);
        assert forall|i: int| 0 < i < parts.len() implies r[i] == rest[i - 1] && parts[i]
            == parts.drop_first()[i - 1] by {}
        assert forall|i: int| 0 <= i < parts.len() - 1 implies (#[trigger] r[i]).end_pos
            == r[i + 1].start_pos by {
            if i > 0 {
                assert(r[i] == rest[i - 1]);
                assert(r[i + 1] == rest[i]);
            } else {
                assert(r[1] == rest[0]);
            }
        }
    }
}

/// A heading segment longer than `SEGMENT_MAX_BYTES` gives exactly the parts that
/// `recursive_split` makes of it with a bound of `PART_MAX_BYTES`, in order, each under
/// the heading's path and at most `PART_MAX_BYTES` bytes long; the first starts where
/// the segment starts (the heading's offset, taken back to a character boundary), and
/// each one ends where the next starts.
pub proof fn lemma_oversized_segment(t: Seq<char>, i: int)
    requires
        0 <= i < headers_of(t).len(),
        byte_len(
            t.subrange(seg_start(t, headers_of(t), i), seg_end(t, headers_of(t), i)),
        ) > SEGMENT_MAX_BYTES,
    ensures
        ({
            let hs = headers_of(t);
            let seg = t.subrange(seg_start(t, hs, i), seg_end(t, hs, i));
            let parts = split_parts(seg, PART_MAX_BYTES as nat);
            let cs = segment_chunks(t, hs, i);
            &&& cs.len() == parts.len()
            &&& cs.len() > 0 ==> cs[0].start_pos == byte_offset(t, seg_start(t, hs, i))
            &&& forall|k: int|
                0 <= k < cs.len() ==> {
                    let c = #[trigger] cs[k];
                    &&& c.content == parts[k]
                    &&& c.header_path == path_of(hs, i)
                    &&& byte_len(c.content) <= PART_MAX_BYTES
                    &&& c.end_pos == c.start_pos + byte_len(c.content)
                    &&& k + 1 < cs.len() ==> c.end_pos == cs[k + 1].start_pos
                }
        }),
{
    let hs = headers_of(t);
    let a = seg_start(t, hs, i);
    let seg = t.subrange(a, seg_end(t, hs, i));
    let parts = split_parts(seg, PART_MAX_BYTES as nat);
    lemma_split_parts_within(seg, PART_MAX_BYTES as nat);
    lemma_part_chunks(parts, path_of(hs, i), byte_offset(t, a));
}

/// Facts on the headings of a document that the segment lemmas need.
pub open spec fn positions_ordered(t: Seq<char>, hs: Seq<HeaderView>) -> bool {
    &&& forall|j: int| 0 <= j < hs.len() ==> #[trigger] hs[j].position <= byte_len(t)
    &&& forall|j: int, l: int|
        0 <= j < l < hs.len() ==> #[trigger] hs[j].position < #[trigger] hs[l].position
}

proof fn lemma_segment_bounds(t: Seq<char>, hs: Seq<HeaderView>, i: int)
    requires
        positions_ordered(t, hs),
        0 <= i < hs.len(),
    ensures
        0 <= seg_start(t, hs, i) <= seg_end(t, hs, i) <= t.len(),
{
    lemma_prefix_within(t, hs[i].position as int);
    if i + 1 < hs.len() {
        lemma_prefix_within(t, hs[i + 1].position as int);
        lemma_prefix_within_mono(t, hs[i].position as int, hs[i + 1].position as int);
    }
}

/// The chunks of one segment: within the segment, under the heading's path, and small.
proof fn lemma_segment_chunks(t: Seq<char>, hs: Seq<HeaderView>, i: int)
    requires
        positions_ordered(t, hs),
        0 <= i < hs.len(),
    ensures
        forall|k: int|
            0 <= k < segment_chunks(t, hs, i).len() ==> {
                let c = #[trigger] segment_chunks(t, hs, i)[k];
                &&& c.header_path == path_of(hs, i)
                &&& byte_offset(t, seg_start(t, hs, i)) <= c.start_pos <= c.end_pos
                &&& c.end_pos <= byte_offset(t, seg_end(t, hs, i))
                &&& byte_len(c.content) <= SEGMENT_MAX_BYTES
                &&& byte_len(t.subrange(seg_start(t, hs, i), seg_end(t, hs, i)))
                    > SEGMENT_MAX_BYTES ==> byte_len(c.content) <= PART_MAX_BYTES
            },
{
    lemma_segment_bounds(t, hs, i);
    let a = seg_start(t, hs, i);
    let b = seg_end(t, hs, i);
    let seg = t.subrange(a, b);
    lemma_byte_len_subrange(t, a, b);
    if byte_len(seg) > SEGMENT_MAX_BYTES {
        let parts = split_parts(seg, PART_MAX_BYTES as nat);
        lemma_split_parts_within(seg, PART_MAX_BYTES as nat);
        lemma_split_total(seg, PART_MAX_BYTES as nat);
        lemma_part_chunks(parts, path_of(hs, i), byte_offset(t, a));
        assert forall|k: int| 0 <= k < segment_chunks(t, hs, i).len() implies byte_len(
            #[trigger] segment_chunks(t, hs, i)[k].content,
        ) <= PART_MAX_BYTES by {
            assert(segment_chunks(t, hs, i)[k].content == parts[k]);
        }
    }
}

/// Chunk `c` comes from the segment of heading `h`: it carries the heading's path, lies
/// within the segment, and holds at most `SEGMENT_MAX_BYTES` bytes.
pub open spec fn in_segment(t: Seq<char>, hs: Seq<HeaderView>, c: ChunkView, h: int) -> bool {
    &&& c.header_path == path_of(hs, h)
    &&& byte_offset(t, seg_start(t, hs, h)) <= c.start_pos <= c.end_pos
    &&& c.end_pos <= byte_offset(t, seg_end(t, hs, h))
    &&& byte_len(c.content) <= SEGMENT_MAX_BYTES
}

/// Index of the heading whose segment gives chunk `k` of `chunks_from(t, hs, i)`.
pub open spec fn chunk_heading(t: Seq<char>, hs: Seq<HeaderView>, i: int, k: int) -> int
    decreases hs.len() - i,
{
    if i < 0 || i >= hs.len() || k < segment_chunks(t, hs, i).len() {
        i
    } else {
        chunk_heading(t, hs, i + 1, k - segment_chunks(t, hs, i).len())
    }
}

proof fn lemma_chunks_from(t: Seq<char>, hs: Seq<HeaderView>, i: int, k: int)
    requires
        positions_ordered(t, hs),
        0 <= i,
        0 <= k < chunks_from(t, hs, i).len(),
    ensures
        i <= chunk_heading(t, hs, i, k) < hs.len(),
        in_segment(t, hs, chunks_from(t, hs, i)[k], chunk_heading(t, hs, i, k)),
    decreases hs.len() - i,
{
    lemma_segment_chunks(t, hs, i);
    let sc = segment_chunks(t, hs, i);
    if k < sc.len() {
        assert(chunks_from(t, hs, i)[k] == sc[k]);
    } else {
        lemma_chunks_from(t, hs, i + 1, k - sc.len());
        assert(chunks_from(t, hs, i)[k] == chunks_from(t, hs, i + 1)[k - sc.len()]);
    }
}

proof fn lemma_positions_ordered(t: Seq<char>)
    ensures
        positions_ordered(t, headers_of(t)),
{
    assert(t.take(0) =~= Seq::<char>::empty());
    assert(byte_offset(t, 0) == 0);
    lemma_headers_from_positions(t, 0, 0);
}

/// Every chunk holds at most `SEGMENT_MAX_BYTES` bytes; at most `PART_MAX_BYTES` when
/// the document has no headings, or when it comes from a segment longer than
/// `SEGMENT_MAX_BYTES`, which is always cut into such parts.
pub proof fn lemma_chunk_sizes(t: Seq<char>)
    ensures
        forall|k: int|
            0 <= k < chunks_of(t).len() ==> byte_len(#[trigger] chunks_of(t)[k].content)
                <= SEGMENT_MAX_BYTES,
        headers_of(t).len() == 0 ==> forall|k: int|
            0 <= k < chunks_of(t).len() ==> byte_len(#[trigger] chunks_of(t)[k].content)
                <= PART_MAX_BYTES,
        forall|i: int, k: int|
            0 <= i < headers_of(t).len() && byte_len(
                t.subrange(seg_start(t, headers_of(t), i), seg_end(t, headers_of(t), i)),
            ) > SEGMENT_MAX_BYTES && 0 <= k < segment_chunks(t, headers_of(t), i).len()
                ==> byte_len(#[trigger] segment_chunks(t, headers_of(t), i)[k].content)
                <= PART_MAX_BYTES,
{
    let hs = headers_of(t);
    lemma_positions_ordered(t);
    assert forall|i: int, k: int|
        0 <= i < hs.len() && byte_len(t.subrange(seg_start(t, hs, i), seg_end(t, hs, i)))
            > SEGMENT_MAX_BYTES && 0 <= k < segment_chunks(t, hs, i).len() implies byte_len(
        #[trigger] segment_chunks(t, hs, i)[k].content,
    ) <= PART_MAX_BYTES by {
        lemma_segment_chunks(t, hs, i);
    }
    if t.len() > 0 {
        if hs.len() == 0 {
            if byte_len(t) > PART_MAX_BYTES {
                let parts = split_parts(t, PART_MAX_BYTES as nat);
                lemma_split_parts_within(t, PART_MAX_BYTES as nat);
                lemma_part_chunks(parts, Seq::empty(), 0);
                assert forall|k: int| 0 <= k < chunks_of(t).len() implies byte_len(
                    #[trigger] chunks_of(t)[k].content,
                ) <= PART_MAX_BYTES by {
                    assert(chunks_of(t)[k].content == parts[k]);
                }
            }
        } else {
            assert forall|k: int| 0 <= k < chunks_of(t).len() implies byte_len(
                #[trigger] chunks_of(t)[k].content,
            ) <= SEGMENT_MAX_BYTES by {
                lemma_chunks_from(t, hs, 0, k);
            }
        }
    }
}

/// Every chunk spans `start_pos..end_pos` with `start_pos <= end_pos <=` the byte length
/// of the document.
pub proof fn lemma_chunk_offsets(t: Seq<char>)
    ensures
        forall|k: int|
            0 <= k < chunks_of(t).len() ==> #[trigger] chunks_of(t)[k].start_pos
                <= chunks_of(t)[k].end_pos <= byte_len(t),
{
    let hs = headers_of(t);
    lemma_positions_ordered(t);
    if t.len() > 0 {
        if hs.len() == 0 {
            if byte_len(t) > PART_MAX_BYTES {
                let parts = split_parts(t, PART_MAX_BYTES as nat);
                lemma_split_total(t, PART_MAX_BYTES as nat);
                lemma_part_chunks(parts, Seq::empty(), 0);
            }
        } else {
            assert forall|k: int| 0 <= k < chunks_of(t).len() implies #[trigger] chunks_of(
                t,
            )[k].start_pos <= chunks_of(t)[k].end_pos <= byte_len(t) by {
                lemma_chunks_from(t, hs, 0, k);
                let h = chunk_heading(t, hs, 0, k);
                lemma_segment_bounds(t, hs, h);
                lemma_byte_len_subrange(t, seg_end(t, hs, h), t.len() as int);
                lemma_byte_offset_full(t);
            }
        }
    }
}

/// Heading `j` is still open at heading `i`: it comes no later, and every heading after
/// it up to `i` is deeper.
pub open spec fn is_open(hs: Seq<HeaderView>, i: int, j: int) -> bool {
    &&& 0 <= j <= i
    &&& forall|k: int| j < k <= i ==> #[trigger] hs[k].level > hs[j].level
}

/// The entries of `stack` are the headings at indices `open`, in order, with strictly
/// increasing indices and levels.
pub open spec fn stack_lists(hs: Seq<HeaderView>, stack: Seq<(nat, Seq<char>)>, open: Seq<int>) -> bool {
    &&& stack.len() == open.len()
    &&& forall|m: int|
        0 <= m < open.len() ==> 0 <= #[trigger] open[m] < hs.len() && stack[m] == (
            hs[open[m]].level,
            formatted(hs[open[m]]),
        )
    &&& forall|m: int, m2: int|
        0 <= m < m2 < open.len() ==> #[trigger] open[m] < #[trigger] open[m2] && hs[open[m]].level
            < hs[open[m2]].level
}

/// On a stack whose levels rise, popping the entries at `level` or deeper keeps the
/// prefix of those shallower than `level`.
proof fn lemma_pop_deeper(stack: Seq<(nat, Seq<char>)>, level: nat) -> (p: int)
    requires
        forall|m: int, m2: int|
            0 <= m < m2 < stack.len() ==> #[trigger] stack[m].0 < #[trigger] stack[m2].0,
    ensures
        0 <= p <= stack.len(),
        pop_deeper(stack, level) == stack.take(p),
        forall|m: int| 0 <= m < p ==> #[trigger] stack[m].0 < level,
        forall|m: int| p <= m < stack.len() ==> #[trigger] stack[m].0 >= level,
    decreases stack.len(),
{
    if stack.len() > 0 && stack.last().0 >= level {
        let d = stack.drop_last();
        let p = lemma_pop_deeper(d, level);
        assert(d.take(p) =~= stack.take(p));
        assert forall|m: int| 0 <= m < p implies #[trigger] stack[m].0 < level by {
            assert(stack[m] == d[m]);
        }
        assert forall|m: int| p <= m < stack.len() implies #[trigger] stack[m].0 >= level by {
            if m < stack.len() - 1 {
                assert(stack[m] == d[m]);
            }
        }
        p
    } else {
        assert(stack.take(stack.len() as int) =~= stack);
        assert forall|m: int| 0 <= m < stack.len() implies #[trigger] stack[m].0 < level by {
            if m < stack.len() - 1 {
                assert(stack[m].0 < stack[stack.len() - 1].0);
            }
        }
        stack.len() as int
    }
}

proof fn lemma_stack_after(hs: Seq<HeaderView>, i: int) -> (open: Seq<int>)
    requires
        -1 <= i < hs.len(),
    ensures
        stack_lists(hs, stack_after(hs, i), open),
        forall|m: int| 0 <= m < open.len() ==> is_open(hs, i, #[trigger] open[m]),
        forall|j: int| is_open(hs, i, j) ==> open.contains(j),
    decreases i + 1,
{
    if i < 0 {
        Seq::empty()
    } else {
        let prev = lemma_stack_after(hs, i - 1);
        let st = stack_after(hs, i - 1);
        let level = hs[i].level;
        assert forall|m: int, m2: int| 0 <= m < m2 < st.len() implies #[trigger] st[m].0
            < #[trigger] st[m2].0 by {
            assert(prev[m] < prev[m2]);
        }
        let p = lemma_pop_deeper(st, level);
        let open = prev.take(p).push(i);
        let ns = stack_after(hs, i);
        assert(ns == st.take(p).push((level, formatted(hs[i]))));
        assert forall|m: int| 0 <= m < open.len() implies 0 <= #[trigger] open[m] < hs.len()
            && ns[m] == (hs[open[m]].level, formatted(hs[open[m]])) by {
            if m < p {
                assert(open[m] == prev[m]);
                assert(ns[m] == st[m]);
            }
        }
        assert forall|m: int, m2: int| 0 <= m < m2 < open.len() implies #[trigger] open[m]
            < #[trigger] open[m2] && hs[open[m]].level < hs[open[m2]].level by {
            assert(open[m] == prev[m]);
            assert(is_open(hs, i - 1, prev[m]));
            if m2 < p {
                assert(open[m2] == prev[m2]);
            } else {
                assert(st[m].0 < level);
            }
        }
        assert forall|m: int| 0 <= m < open.len() implies is_open(hs, i, #[trigger] open[m]) by {
            if m < p {
                assert(open[m] == prev[m]);
                assert(is_open(hs, i - 1, prev[m]));
                assert(st[m].0 < level);
                assert forall|k: int| prev[m] < k <= i implies #[trigger] hs[k].level
                    > hs[prev[m]].level by {
                    if k < i {
                        assert(hs[k].level > hs[prev[m]].level);
                    }
                }
            }
        }
        assert forall|j: int| is_open(hs, i, j) implies open.contains(j) by {
            if j == i {
                assert(open[open.len() - 1] == i);
            } else {
                assert forall|k: int| j < k <= i - 1 implies #[trigger] hs[k].level > hs[j].level by {
                    assert(hs[k].level > hs[j].level);
                }
                assert(is_open(hs, i - 1, j));
                assert(prev.contains(j));
                let m = choose|m: int| 0 <= m < prev.len() && prev[m] == j;
                assert(hs[i].level > hs[j].level);
                if m >= p {
                    assert(st[m].0 >= level);
                }
                assert(open[m] == j);
            }
        }
        open
    }
}

/// The path of every chunk lists exactly the headings still open where the chunk comes
/// from, shallowest first, with strictly increasing levels: each chunk lies within the
/// segment of some heading `h`, and its path holds one entry per heading open at `h`
/// (`h` itself included). A document without headings gives chunks with empty paths.
pub proof fn lemma_chunk_header_path(t: Seq<char>, k: int) -> (open: Seq<int>)
    requires
        0 <= k < chunks_of(t).len(),
    ensures
        headers_of(t).len() == 0 ==> chunks_of(t)[k].header_path.len() == 0 && open.len() == 0,
        headers_of(t).len() > 0 ==> {
            let hs = headers_of(t);
            let h = chunk_heading(t, hs, 0, k);
            let c = chunks_of(t)[k];
            &&& 0 <= h < hs.len()
            &&& byte_offset(t, seg_start(t, hs, h)) <= c.start_pos <= c.end_pos
            &&& c.end_pos <= byte_offset(t, seg_end(t, hs, h))
            &&& c.header_path.len() == open.len()
            &&& forall|m: int|
                0 <= m < open.len() ==> is_open(hs, h, #[trigger] open[m]) && c.header_path[m]
                    == formatted(hs[open[m]])
            &&& forall|m: int, m2: int|
                0 <= m < m2 < open.len() ==> #[trigger] open[m] < #[trigger] open[m2]
                    && hs[open[m]].level < hs[open[m2]].level
            &&& forall|j: int| is_open(hs, h, j) ==> open.contains(j)
        },
{
    let hs = headers_of(t);
    if hs.len() == 0 {
        if byte_len(t) > PART_MAX_BYTES {
            lemma_part_chunks(split_parts(t, PART_MAX_BYTES as nat), Seq::empty(), 0);
        }
        Seq::empty()
    } else {
        lemma_positions_ordered(t);
        lemma_chunks_from(t, hs, 0, k);
        let h = chunk_heading(t, hs, 0, k);
        let open = lemma_stack_after(hs, h);
        let c = chunks_of(t)[k];
        assert(c.header_path == path_of(hs, h));
        assert forall|m: int| 0 <= m < open.len() implies is_open(hs, h, #[trigger] open[m])
            && c.header_path[m] == formatted(hs[open[m]]) by {
            assert(c.header_path[m] == stack_after(hs, h)[m].1);
        }
        open
    }
}

} // verus!
