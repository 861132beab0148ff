//! Embedded-image references and the text around them.
use vstd::prelude::*;
use vstd::string::*;
use crate::chunker::{
    boundary_at, extract_headers, header_views, headers_of, lemma_headers_from_positions, HeaderView,
};
use crate::text::{
    byte_len, byte_offset, char_len_utf8, chars_of, lemma_byte_len_subrange,
    lemma_byte_offset_full, lemma_byte_offset_step, lemma_prefix_within_mono,
    prefix_within, range_byte_len, str_byte_len, substring, substring_at, byte_offsets,
};

verus! {

/// The two syntaxes of an image reference.
#[derive(Debug, Clone, Copy, PartialEq, Eq, Structural)]
pub enum ImageSyntaxType {
    /// Embed style: `![[image.png]]`.
    Obsidian,
    /// Inline style: `![alt](path/to/image.png)`.
    Markdown,
}

/// An image reference: its path, the byte offset where it starts, the text around it
/// (left empty by the scan, for the caller to fill), and its syntax.
#[derive(Debug, Clone, PartialEq)]
pub struct ImageLink {
    pub path: String,
    pub position: usize,
    pub context: String,
    pub syntax_type: ImageSyntaxType,
}

/// An image reference as mathematical values.
pub struct ImageLinkView {
    pub path: Seq<char>,
    pub position: nat,
    pub context: Seq<char>,
    pub syntax_type: ImageSyntaxType,
}

impl View for ImageLink {
    type V = ImageLinkView;

    open spec fn view(&self) -> ImageLinkView {
        ImageLinkView {
            path: self.path@,
            position: self.position as nat,
            context: self.context@,
            syntax_type: self.syntax_type,
        }
    }
}

/// The views of a list of image references.
pub open spec fn link_views(v: Seq<ImageLink>) -> Seq<ImageLinkView> {
    v.map_values(|l: ImageLink| l@)
}

/// Index of the first `c` at or after `i`, or the length of `t`.
pub open spec fn find_from(t: Seq<char>, c: char, i: int) -> int
    decreases t.len() - i,
{
    if i >= t.len() {
        t.len() as int
    } else if t[i] == c {
        i
    } else {
        find_from(t, c, i + 1)
    }
}

/// `find_from` stays in bounds, finds `c`, and skips only other characters.
pub proof fn lemma_find_from(t: Seq<char>, c: char, i: int)
    requires
        0 <= i,
    ensures
        i <= t.len() ==> i <= find_from(t, c, i) <= t.len(),
        find_from(t, c, i) < t.len() ==> t[find_from(t, c, i)] == c,
        forall|k: int| i <= k < find_from(t, c, i) ==> t[k] != c,
    decreases t.len() - i,
{
    if i < t.len() && t[i] != c {
        lemma_find_from(t, c, i + 1);
    }
}

/// An embed-style reference `![[path]]` at index `i`: the path is one or more
/// characters other than `]`. Gives the start and end of the path and the end of the
/// reference.
pub open spec fn embed_at(t: Seq<char>, i: int) -> Option<(int, int, int)> {
    if 0 <= i && i + 3 <= t.len() && t[i] == '!' && t[i + 1] == '[' && t[i + 2] == '[' {
        let j = find_from(t, ']', i + 3);
        if j > i + 3 && j + 1 < t.len() && t[j + 1] == ']' {
            Some((i + 3, j, j + 2))
        } else {
            None
        }
    } else {
        None
    }
}

/// An inline-style reference `![alt](path)` at index `i`: the alt text holds no `]`,
/// the path is one or more characters other than `)`. Gives the start and end of the
/// path and the end of the reference.
pub open spec fn inline_at(t: Seq<char>, i: int) -> Option<(int, int, int)> {
    if 0 <= i && i + 2 <= t.len() && t[i] == '!' && t[i + 1] == '[' {
        let j = find_from(t, ']', i + 2);
        if j + 1 < t.len() && t[j + 1] == '(' {
            let k = find_from(t, ')', j + 2);
            if k < t.len() && k > j + 2 {
                Some((j + 2, k, k + 1))
            } else {
                None
            }
        } else {
            None
        }
    } else {
        None
    }
}

/// The reference of syntax `kind` at index `i`, if any.
pub open spec fn match_at(t: Seq<char>, kind: ImageSyntaxType, i: int) -> Option<(int, int, int)> {
    match kind {
        ImageSyntaxType::Obsidian => embed_at(t, i),
        ImageSyntaxType::Markdown => inline_at(t, i),
    }
}

/// Where a reference matched at `i` lies: its path within it, its end past `i`.
pub proof fn lemma_match_at(t: Seq<char>, kind: ImageSyntaxType, i: int)
    requires
        match_at(t, kind, i) is Some,
    ensures
        ({
            let (ps, pe, e) = match_at(t, kind, i)->0;
            i < ps <= pe < e <= t.len()
        }),
{
    if kind == ImageSyntaxType::Obsidian {
        lemma_find_from(t, ']', i + 3);
    } else {
        lemma_find_from(t, ']', i + 2);
        let j = find_from(t, ']', i + 2);
        lemma_find_from(t, ')', j + 2);
    }
}

/// The references of one syntax from index `i` onwards, leftmost first; the search
/// resumes past each match, so matches never overlap.
pub open spec fn scan_links(t: Seq<char>, kind: ImageSyntaxType, i: int) -> Seq<ImageLinkView>
    decreases t.len() - i,
{
    if i < 0 || i >= t.len() {
        Seq::empty()
    } else {
        match match_at(t, kind, i) {
            Some(m) => {
                proof {
                    lemma_match_at(t, kind, i);
                }
                seq![
                    ImageLinkView {
                        path: t.subrange(m.0, m.1),
                        position: byte_offset(t, i),
                        context: Seq::empty(),
                        syntax_type: kind,
                    },
                ] + scan_links(t, kind, m.2)
            },
            None => scan_links(t, kind, i + 1),
        }
    }
}

/// Two position-ordered lists merged by position, the first list's entry first on a tie.
pub open spec fn merge_links(a: Seq<ImageLinkView>, b: Seq<ImageLinkView>) -> Seq<ImageLinkView>
    decreases a.len() + b.len(),
{
    if a.len() == 0 {
        b
    } else if b.len() == 0 {
        a
    } else if a[0].position <= b[0].position {
        seq![a[0]] + merge_links(a.drop_first(), b)
    } else {
        seq![b[0]] + merge_links(a, b.drop_first())
    }
}

/// The image references of a document: those of both syntaxes, ordered by position.
pub open spec fn image_links_of(t: Seq<char>) -> Seq<ImageLinkView> {
    merge_links(
        scan_links(t, ImageSyntaxType::Obsidian, 0),
        scan_links(t, ImageSyntaxType::Markdown, 0),
    )
}

/// The references lie in non-decreasing order of position.
pub open spec fn sorted_by_position(v: Seq<ImageLinkView>) -> bool {
    forall|i: int, j: int| 0 <= i < j < v.len() ==> v[i].position <= v[j].position
}

/// A copy of a link.
fn copy_link(l: &ImageLink) -> (r: ImageLink)
    ensures
        r@ == l@,
{
    ImageLink {
        path: l.path.clone(),
        position: l.position,
        context: l.context.clone(),
        syntax_type: l.syntax_type,
    }
}

/// Index of the first `c` at or after `i`.
fn find_char(t: &Vec<char>, c: char, i: usize) -> (r: usize)
    requires
        i <= t@.len(),
    ensures
        r == find_from(t@, c, i as int),
        i <= r <= t@.len(),
{
    let mut k = i;
    while k < t.len() && t[k] != c
        invariant
            i <= k <= t@.len(),
            find_from(t@, c, i as int) == find_from(t@, c, k as int),
        decreases t@.len() - k,
    {
        k = k + 1;
    }
    k
}

/// The reference of syntax `kind` at index `i`, if one starts there.
fn match_at_exec(t: &Vec<char>, kind: ImageSyntaxType, i: usize) -> (r: Option<(usize, usize, usize)>)
    requires
        i < t@.len(),
    ensures
        r matches Some(m) ==> match_at(t@, kind, i as int) == Some((m.0 as int, m.1 as int, m.2 as int)),
        r is None ==> match_at(t@, kind, i as int) is None,
{
    let n = t.len();
    match kind {
        ImageSyntaxType::Obsidian => {
            if n - i >= 3 && t[i] == '!' && t[i + 1] == '[' && t[i + 2] == '[' {
                let j = find_char(t, ']', i + 3);
                if j > i + 3 && j < n - 1 && t[j + 1] == ']' {
                    return Some((i + 3, j, j + 2));
                }
            }
            None
        },
        ImageSyntaxType::Markdown => {
            if n - i >= 2 && t[i] == '!' && t[i + 1] == '[' {
                let j = find_char(t, ']', i + 2);
                if j < n - 1 && t[j + 1] == '(' {
                    let k = find_char(t, ')', j + 2);
                    if k < n && k > j + 2 {
                        return Some((j + 2, k, k + 1));
                    }
                }
            }
            None
        },
    }
}

/// The references of syntax `kind` in `content` (whose characters are `t`).
fn scan_kind(content: &str, t: &Vec<char>, kind: ImageSyntaxType) -> (links: Vec<ImageLink>)
    requires
        t@ == content@,
    ensures
        link_views(links@) == scan_links(t@, kind, 0),
{
    let n = str_byte_len(content);
    let offs = byte_offsets(t);
    let mut links: Vec<ImageLink> = Vec::new();
    let mut i: usize = 0;
    let mut b: usize = 0;
    proof {
        assert(t@.take(0) =~= Seq::<char>::empty());
        lemma_byte_offset_full(t@);
        assert(link_views(links@) + scan_links(t@, kind, 0) =~= scan_links(t@, kind, 0));
    }
    while i < t.len()
        invariant
            t@ == content@,
            n == byte_len(t@),
            offs@.len() == content@.len() + 1,
            forall|k: int| 0 <= k <= content@.len() ==> #[trigger] offs@[k] == byte_offset(content@, k),
            i <= t@.len(),
            b == byte_offset(t@, i as int),
            link_views(links@) + scan_links(t@, kind, i as int) == scan_links(t@, kind, 0),
        decreases t@.len() - i,
    {
        proof {
            lemma_byte_len_subrange(t@, i as int, t@.len() as int);
            lemma_byte_offset_full(t@);
        }
        let ghost before = link_views(links@);
        match match_at_exec(t, kind, i) {
            Some(m) => {
                proof {
                    lemma_match_at(t@, kind, i as int);
                    lemma_byte_len_subrange(t@, i as int, m.2 as int);
                    lemma_byte_len_subrange(t@, m.2 as int, t@.len() as int);
                }
                let path = substring_at(content, &offs, m.0, m.1);
                let skipped = range_byte_len(t, i, m.2);
                links.push(ImageLink { path, position: b, context: String::new(), syntax_type: kind });
                proof {
                    assert(link_views(links@) =~= before.push(links@.last()@));
                    assert(link_views(links@) + scan_links(t@, kind, m.2 as int) =~= before
                        + scan_links(t@, kind, i as int));
                }
                b = b + skipped;
                i = m.2;
            },
            None => {
                proof {
                    lemma_byte_offset_step(t@, i as int);
                    lemma_byte_len_subrange(t@, i as int + 1, t@.len() as int);
                }
                b = b + char_len_utf8(t[i]);
                i = i + 1;
            },
        }
    }
    proof {
        assert(link_views(links@) + scan_links(t@, kind, i as int) =~= link_views(links@));
    }
    links
}

/// The two lists merged by position, the first one's entry first on a tie.
fn merge_by_position(a: Vec<ImageLink>, b: Vec<ImageLink>) -> (r: Vec<ImageLink>)
    ensures
        link_views(r@) == merge_links(link_views(a@), link_views(b@)),
{
    let mut r: Vec<ImageLink> = Vec::new();
    let mut i: usize = 0;
    let mut j: usize = 0;
    let ghost la = link_views(a@);
    let ghost lb = link_views(b@);
    proof {
        assert(la.skip(0) =~= la);
        assert(lb.skip(0) =~= lb);
        assert(link_views(r@) + merge_links(la.skip(0), lb.skip(0)) =~= merge_links(la, lb));
    }
    while i < a.len() || j < b.len()
        invariant
            la == link_views(a@),
            lb == link_views(b@),
            i <= a@.len(),
            j <= b@.len(),
            link_views(r@) + merge_links(la.skip(i as int), lb.skip(j as int)) == merge_links(la, lb),
        decreases a@.len() + b@.len() - i - j,
    {
        let ghost before = link_views(r@);
        let ghost sa = la.skip(i as int);
        let ghost sb = lb.skip(j as int);
        proof {
            assert(i < a@.len() ==> sa.drop_first() =~= la.skip(i + 1));
            assert(j < b@.len() ==> sb.drop_first() =~= lb.skip(j + 1));
        }
        if j >= b.len() || (i < a.len() && a[i].position <= b[j].position) {
            let link = copy_link(&a[i]);
            proof {
                assert(link@ == sa[0]);
            }
            r.push(link);
            i = i + 1;
        } else {
            let link = copy_link(&b[j]);
            proof {
                assert(link@ == sb[0]);
            }
            r.push(link);
            j = j + 1;
        }
        proof {
            assert(link_views(r@) =~= before.push(r@.last()@));
            assert(link_views(r@) + merge_links(la.skip(i as int), lb.skip(j as int)) =~= before
                + merge_links(sa, sb));
        }
    }
    proof {
        assert(la.skip(i as int) =~= Seq::<ImageLinkView>::empty());
        assert(lb.skip(j as int) =~= Seq::<ImageLinkView>::empty());
        assert(link_views(r@) =~= merge_links(la, lb));
    }
    r
}

/// The references of one syntax lie in order, at or after the offset where the scan
/// starts.
pub proof fn lemma_scan_sorted(t: Seq<char>, kind: ImageSyntaxType, i: int)
    requires
        0 <= i,
    ensures
        sorted_by_position(scan_links(t, kind, i)),
        i <= t.len() ==> forall|k: int|
            0 <= k < scan_links(t, kind, i).len() ==> byte_offset(t, i) <= #[trigger] scan_links(
                t,
                kind,
                i,
            )[k].position,
    decreases t.len() - i,
{
    if i < t.len() {
        match match_at(t, kind, i) {
            Some(m) => {
                lemma_match_at(t, kind, i);
                lemma_scan_sorted(t, kind, m.2);
                lemma_byte_len_subrange(t, i, m.2);
                let rest = scan_links(t, kind, m.2);
                let r = scan_links(t, kind, i);
                assert forall|k: int| 0 < k < r.len() implies r[k] == rest[k - 1] by {}
            },
            None => {
                lemma_scan_sorted(t, kind, i + 1);
                lemma_byte_len_subrange(t, i, i + 1);
            },
        }
    }
}

/// Merging two ordered lists keeps the order, and a bound below both.
pub proof fn lemma_merge_sorted(a: Seq<ImageLinkView>, b: Seq<ImageLinkView>, lo: nat)
    requires
        sorted_by_position(a),
        sorted_by_position(b),
        forall|i: int| 0 <= i < a.len() ==> lo <= #[trigger] a[i].position,
        forall|i: int| 0 <= i < b.len() ==> lo <= #[trigger] b[i].position,
    ensures
        sorted_by_position(merge_links(a, b)),
        forall|i: int|
            0 <= i < merge_links(a, b).len() ==> lo <= #[trigger] merge_links(a, b)[i].position,
    decreases a.len() + b.len(),
{
    if a.len() > 0 && b.len() > 0 {
        let m = merge_links(a, b);
        if a[0].position <= b[0].position {
            let lo2 = a[0].position;
            assert forall|i: int| 0 <= i < a.drop_first().len() implies lo2
                <= #[trigger] a.drop_first()[i].position by {
                assert(a.drop_first()[i] == a[i + 1]);
            }
            assert forall|i: int| 0 <= i < b.len() implies lo2 <= #[trigger] b[i].position by {
                if i > 0 {
                    assert(b[0].position <= b[i].position);
                }
            }
            lemma_merge_sorted(a.drop_first(), b, lo2);
            let rest = merge_links(a.drop_first(), b);
            assert forall|i: int| 0 < i < m.len() implies m[i] == rest[i - 1] by {}
        } else {
            let lo2 = b[0].position;
            assert forall|i: int| 0 <= i < b.drop_first().len() implies lo2
                <= #[trigger] b.drop_first()[i].position by {
                assert(b.drop_first()[i] == b[i + 1]);
            }
            assert forall|i: int| 0 <= i < a.len() implies lo2 <= #[trigger] a[i].position by {
                if i > 0 {
                    assert(a[0].position <= a[i].position);
                }
            }
            lemma_merge_sorted(a, b.drop_first(), lo2);
            let rest = merge_links(a, b.drop_first());
            assert forall|i: int| 0 < i < m.len() implies m[i] == rest[i - 1] by {}
        }
    }
}

/// Finds the image references of `content`: embed-style `![[path]]` and inline-style
/// `![alt](path)`, both scans leftmost-first without overlap, merged by position. Matches
/// of the two syntaxes are kept even where they overlap.
pub fn extract_image_links(content: &str) -> (links: Vec<ImageLink>)
    ensures
        link_views(links@) == image_links_of(content@),
        sorted_by_position(link_views(links@)),
{
    let t = chars_of(content);
    let embeds = scan_kind(content, &t, ImageSyntaxType::Obsidian);
    let inlines = scan_kind(content, &t, ImageSyntaxType::Markdown);
    proof {
        lemma_scan_sorted(t@, ImageSyntaxType::Obsidian, 0);
        lemma_scan_sorted(t@, ImageSyntaxType::Markdown, 0);
        lemma_merge_sorted(
            scan_links(t@, ImageSyntaxType::Obsidian, 0),
            scan_links(t@, ImageSyntaxType::Markdown, 0),
            0,
        );
    }
    merge_by_position(embeds, inlines)
}

/// The first character index, from `i` on, whose byte offset reaches `p`; the end of
/// the document when none does.
pub open spec fn anchor_from(t: Seq<char>, p: int, i: int) -> int
    decreases t.len() - i,
{
    if i >= t.len() {
        t.len() as int
    } else if byte_offset(t, i) >= p {
        i
    } else {
        anchor_from(t, p, i + 1)
    }
}

/// The characters within `w` of the anchor of byte offset `p`, clamped to the document.
pub open spec fn context_window(t: Seq<char>, p: int, w: int) -> Seq<char> {
    let c = anchor_from(t, p, 0);
    let start = if c > w {
        c - w
    } else {
        0
    };
    let end = if c + w < t.len() {
        c + w
    } else {
        t.len() as int
    };
    t.subrange(start, end)
}

/// The anchor of a context window is a character index of the document or its end.
pub proof fn lemma_anchor_bounds(t: Seq<char>, p: int, i: int)
    requires
        0 <= i,
    ensures
        0 <= anchor_from(t, p, i) <= t.len(),
    decreases t.len() - i,
{
    if i < t.len() && byte_offset(t, i) < p {
        lemma_anchor_bounds(t, p, i + 1);
    }
}

/// The text around byte offset `image_pos`: the `context_chars` characters before and
/// after the first character index whose byte offset reaches it (the end of the document
/// when none does), clamped to the document.
pub fn extract_context(content: &str, image_pos: usize, context_chars: usize) -> (r: String)
    ensures
        r@ == context_window(content@, image_pos as int, context_chars as int),
{
    let t = chars_of(content);
    let n = str_byte_len(content);
    let mut i: usize = 0;
    let mut b: usize = 0;
    proof {
        assert(t@.take(0) =~= Seq::<char>::empty());
        lemma_byte_offset_full(t@);
    }
    while i < t.len() && b < image_pos
        invariant
            t@ == content@,
            n == byte_len(t@),
            i <= t@.len(),
            b == byte_offset(t@, i as int),
            anchor_from(t@, image_pos as int, 0) == anchor_from(t@, image_pos as int, i as int),
        decreases t@.len() - i,
    {
        proof {
            lemma_byte_offset_step(t@, i as int);
            lemma_byte_len_subrange(t@, i as int + 1, t@.len() as int);
            lemma_byte_offset_full(t@);
        }
        b = b + char_len_utf8(t[i]);
        i = i + 1;
    }
    let c = i;
    proof {
        lemma_anchor_bounds(t@, image_pos as int, 0);
    }
    let start = if c > context_chars {
        c - context_chars
    } else {
        0
    };
    let end = if context_chars < t.len() - c {
        c + context_chars
    } else {
        t.len()
    };
    substring(content, start, end)
}

/// Index of the last heading, at `i` or before, whose offset is before `p`; -1 when none.
pub open spec fn last_before(hs: Seq<HeaderView>, p: int, i: int) -> int
    decreases i + 1,
{
    if i < 0 {
        -1
    } else if hs[i].position < p {
        i
    } else {
        last_before(hs, p, i - 1)
    }
}

/// Index of the first heading, from `j` on, at `level` or shallower; the number of
/// headings when none.
pub open spec fn section_end_from(hs: Seq<HeaderView>, level: nat, j: int) -> int
    decreases hs.len() - j,
{
    if j < 0 || j >= hs.len() {
        hs.len() as int
    } else if hs[j].level <= level {
        j
    } else {
        section_end_from(hs, level, j + 1)
    }
}

/// The section around byte offset `p`: from the nearest heading before `p` up to the
/// next heading of the same or a shallower level (deeper ones stay inside), or to the
/// end; the whole document when no heading comes before `p`.
pub open spec fn section_of(t: Seq<char>, p: int) -> Seq<char> {
    let hs = headers_of(t);
    let f = last_before(hs, p, hs.len() - 1);
    if f < 0 {
        t
    } else {
        let g = section_end_from(hs, hs[f].level, f + 1);
        let a = prefix_within(t, hs[f].position as int) as int;
        let b = if g < hs.len() {
            prefix_within(t, hs[g].position as int) as int
        } else {
            t.len() as int
        };
        t.subrange(a, b)
    }
}

/// The text of the section that holds byte offset `image_pos`: from the nearest heading
/// line before it to the next heading of the same or a shallower level, or to the end;
/// the whole document when no heading precedes it.
pub fn extract_section_context(content: &str, image_pos: usize) -> (r: String)
    ensures
        r@ == section_of(content@, image_pos as int),
{
    let headers = extract_headers(content);
    let ghost hs = headers_of(content@);
    let t = chars_of(content);
    let mut i = headers.len();
    while i > 0 && headers[i - 1].position >= image_pos
        invariant
            header_views(headers@) == hs,
            i <= headers@.len(),
            last_before(hs, image_pos as int, hs.len() - 1) == last_before(
                hs,
                image_pos as int,
                i - 1,
            ),
        decreases i,
    {
        proof {
            assert(headers@[i - 1]@ == hs[i - 1]);
        }
        i = i - 1;
    }
    if i == 0 {
        proof {
            assert(last_before(hs, image_pos as int, -1) == -1);
        }
        return substring(content, 0, t.len());
    }
    let f = i - 1;
    proof {
        assert(headers@[f as int]@ == hs[f as int]);
        assert(last_before(hs, image_pos as int, hs.len() - 1) == f);
    }
    let level = headers[f].level;
    let mut g = f + 1;
    while g < headers.len() && headers[g].level > level
        invariant
            header_views(headers@) == hs,
            f < g <= headers@.len(),
            level == hs[f as int].level,
            section_end_from(hs, level as nat, f + 1) == section_end_from(hs, level as nat, g as int),
        decreases headers@.len() - g,
    {
        proof {
            assert(headers@[g as int]@ == hs[g as int]);
        }
        g = g + 1;
    }
    proof {
        if g < headers@.len() {
            assert(headers@[g as int]@ == hs[g as int]);
        }
        lemma_headers_from_positions(t@, 0, 0);
        assert(t@.take(0) =~= Seq::<char>::empty());
        assert(byte_offset(t@, 0) == 0);
    }
    let a = boundary_at(&t, 0, 0, headers[f].position);
    let b = if g < headers.len() {
        proof {
            lemma_prefix_within_mono(t@, hs[f as int].position as int, hs[g as int].position as int);
        }
        boundary_at(&t, 0, 0, headers[g].position).0
    } else {
        t.len()
    };
    substring(content, a.0, b)
}

} // verus!
