use vstd::prelude::*;
use vstd::string::StrSliceExecFns;
use vstd::string::StringExecFns;

use crate::document::{
    all_runs, bounded, frag_len, lemma_locate, lemma_text_edit_keeps, lemma_text_of_single,
    lemma_text_style_runs, lemma_text_style_text, others_from, text_edit, text_of, text_style,
    FragmentView, Span, Style, Text, TextFragment,
};
use crate::queue::{has_pair, is_min2, lemma_min2_unique, pop_min2, queues_view, queues_wf, Queue};

verus! {

/// The characters of `s`, one by one.
pub fn chars_of(s: &str) -> (r: Vec<char>)
    ensures
        r@ == s@,
{
    let mut v: Vec<char> = Vec::new();
    for c in it: s.chars()
        invariant
            v@ == it.seq().take(it.index() as int),
    {
        v.push(c);
        assert(v@ =~= it.seq().take(it.index() as int + 1));
    }
    assert(v@ =~= s@);
    v
}

/// The first index from `i` on where `s` holds `c`.
pub open spec fn find_char(s: Seq<char>, i: int, c: char) -> Option<int>
    decreases s.len() - i,
{
    if i < 0 || i >= s.len() {
        None
    } else if s[i] == c {
        Some(i)
    } else {
        find_char(s, i + 1, c)
    }
}

pub proof fn lemma_find_char(s: Seq<char>, i: int, c: char)
    requires
        0 <= i,
    ensures
        match find_char(s, i, c) {
            Some(k) => i <= k < s.len() && s[k] == c && forall|j: int| i <= j < k ==> s[j] != c,
            None => forall|j: int| i <= j < s.len() ==> s[j] != c,
        },
    decreases s.len() - i,
{
    if i < s.len() && s[i] != c {
        lemma_find_char(s, i + 1, c);
    }
}

/// Where the run of `c` that starts at `i` ends.
pub open spec fn run_end(s: Seq<char>, i: int, c: char) -> int
    decreases s.len() - i,
{
    if i < 0 || i >= s.len() || s[i] != c {
        i
    } else {
        run_end(s, i + 1, c)
    }
}

pub proof fn lemma_run_end(s: Seq<char>, i: int, c: char)
    requires
        0 <= i <= s.len(),
    ensures
        i <= run_end(s, i, c) <= s.len(),
        forall|j: int| i <= j < run_end(s, i, c) ==> s[j] == c,
        run_end(s, i, c) < s.len() ==> s[run_end(s, i, c)] != c,
        i < s.len() && s[i] == c ==> run_end(s, i, c) > i,
    decreases s.len() - i,
{
    if i < s.len() && s[i] == c {
        lemma_run_end(s, i + 1, c);
    }
}

pub open spec fn is_marker(c: char) -> bool {
    c == '*' || c == '_' || c == '`' || c == '~'
}

/// The row of a marker character among the delimiter queues.
pub open spec fn marker_class(c: char) -> int {
    if c == '*' {
        0
    } else if c == '_' {
        1
    } else if c == '`' {
        2
    } else {
        3
    }
}

/// The column of a run of `len` markers: one, two, or three and more.
pub open spec fn bucket(len: int) -> int {
    if len >= 3 {
        2
    } else {
        len - 1
    }
}

/// A link or image recognised at some position.
pub struct LinkMatch {
    pub end: int,
    pub image: bool,
    pub alt: Seq<char>,
    pub target: Seq<char>,
}

/// `![alt](target)` or `[alt](target)` at position `i`: the alternative
/// text runs to the first `]`, the target to the first `)` after it.
pub open spec fn link_at(s: Seq<char>, i: int) -> Option<LinkMatch> {
    let image = 0 <= i < s.len() && s[i] == '!';
    let j = if image {
        i + 1
    } else {
        i
    };
    if !(0 <= j < s.len() && s[j] == '[') {
        None
    } else {
        match find_char(s, j + 1, ']') {
            None => None,
            Some(k) => if !(k + 1 < s.len() && s[k + 1] == '(') {
                None
            } else {
                match find_char(s, k + 2, ')') {
                    None => None,
                    Some(m) => Some(
                        LinkMatch {
                            end: m + 1,
                            image,
                            alt: s.subrange(j + 1, k),
                            target: s.subrange(k + 2, m),
                        },
                    ),
                }
            },
        }
    }
}

pub open spec fn link_frag(l: LinkMatch) -> FragmentView {
    if l.image {
        FragmentView::Image(l.alt, l.target)
    } else {
        FragmentView::Link(l.alt, l.target)
    }
}

/// An edit applied once styles are resolved: a replacement by a fragment,
/// or, with `None`, a removal.
pub type EditView = (Span, Option<FragmentView>);

/// What a scan of a line has collected: twelve queues of run offsets,
/// row by marker and column by run length, and the edits.
pub struct ScanView {
    pub queues: Seq<Seq<usize>>,
    pub edits: Seq<EditView>,
}

/// `e`, where it lies past `i` and within `n`; else the position after `i`.
pub open spec fn next_pos(i: int, e: int, n: int) -> int {
    if i < e <= n {
        e
    } else {
        i + 1
    }
}

/// The scan from position `i` on. At each position: a link or an image;
/// else a run of one marker character, queued by its start; else a
/// backslash, recorded for removal, which hides the character after it;
/// else one plain character.
pub open spec fn scan_from(s: Seq<char>, i: int, st: ScanView) -> ScanView
    decreases s.len() - i,
{
    if i < 0 || i >= s.len() {
        st
    } else {
        match link_at(s, i) {
            Some(l) => scan_from(
                s,
                next_pos(i, l.end, s.len() as int),
                ScanView {
                    queues: st.queues,
                    edits: st.edits.push((Span { offset: i as usize, length: (l.end - i) as usize }, Some(link_frag(l)))),
                },
            ),
            None => if is_marker(s[i]) {
                let e = run_end(s, i, s[i]);
                let q = 3 * marker_class(s[i]) + bucket(e - i);
                scan_from(
                    s,
                    next_pos(i, e, s.len() as int),
                    ScanView { queues: st.queues.update(q, st.queues[q].push(i as usize)), edits: st.edits },
                )
            } else if s[i] == '\\' {
                scan_from(
                    s,
                    next_pos(i, i + 2, s.len() as int),
                    ScanView {
                        queues: st.queues,
                        edits: st.edits.push((Span { offset: i as usize, length: 1 }, None)),
                    },
                )
            } else {
                scan_from(s, i + 1, st)
            },
        }
    }
}

pub open spec fn empty_scan() -> ScanView {
    ScanView { queues: Seq::new(12, |i: int| Seq::<usize>::empty()), edits: seq![] }
}

pub open spec fn scan(s: Seq<char>) -> ScanView {
    scan_from(s, 0, empty_scan())
}

/// The first index from `i` on where `chars` holds `c`.
fn find_char_in(chars: &Vec<char>, i: usize, c: char) -> (r: Option<usize>)
    ensures
        match find_char(chars@, i as int, c) {
            Some(k) => r == Some(k as usize),
            None => r is None,
        },
{
    let mut j = i;
    while j < chars.len()
        invariant
            i <= j,
            find_char(chars@, i as int, c) == find_char(chars@, j as int, c),
        decreases chars.len() - j,
    {
        if chars[j] == c {
            return Some(j);
        }
        j = j + 1;
    }
    None
}

pub type Edit = (Span, Option<TextFragment>);

pub open spec fn edit_view(e: Edit) -> EditView {
    (
        e.0,
        match e.1 {
            Some(f) => Some(f@),
            None => None,
        },
    )
}

pub open spec fn edits_view(v: Seq<Edit>) -> Seq<EditView> {
    v.map_values(|e: Edit| edit_view(e))
}

/// Records the link or image at `offset`, if there is one, and moves past it.
fn try_push_link_image_in(line: &str, chars: &Vec<char>, offset: &mut usize, buffer: &mut Vec<Edit>) -> (r: bool)
    requires
        chars@ == line@,
        *old(offset) < chars@.len(),
    ensures
        match link_at(chars@, *old(offset) as int) {
            Some(l) => r && *final(offset) == l.end && edits_view(final(buffer)@) == edits_view(old(buffer)@).push(
                (Span { offset: *old(offset), length: (l.end - *old(offset)) as usize }, Some(link_frag(l))),
            ),
            None => !r && *final(offset) == *old(offset) && final(buffer)@ == old(buffer)@,
        },
{
    let ghost s = chars@;
    let i = *offset;
    let n = chars.len();
    let is_image = chars[i] == '!';
    let j = if is_image { i + 1 } else { i };
    if !(j < n && chars[j] == '[') {
        return false;
    }
    let k = match find_char_in(chars, j + 1, ']') {
        Some(k) => k,
        None => { return false; },
    };
    proof { lemma_find_char(s, j + 1, ']'); }
    if !(k + 1 < n && chars[k + 1] == '(') {
        return false;
    }
    let m = match find_char_in(chars, k + 2, ')') {
        Some(m) => m,
        None => { return false; },
    };
    proof { lemma_find_char(s, k + 2, ')'); }
    let alt = String::from_str(line.substring_char(j + 1, k));
    let target = String::from_str(line.substring_char(k + 2, m));
    let frag = if is_image {
        TextFragment::Image(alt, target)
    } else {
        TextFragment::Link(alt, target)
    };
    let span = Span::new(i, m + 1 - i);
    let ghost l = link_at(s, i as int)->0;
    assert(frag@ == link_frag(l));
    buffer.push((span, Some(frag)));
    assert(edits_view(buffer@) =~= edits_view(old(buffer)@).push((span, Some(link_frag(l)))));
    *offset = m + 1;
    true
}

/// Queues the run of `prefixe` that starts at `offset`, if there is one,
/// and moves past it.
fn try_push_prefixe_idx_in(chars: &Vec<char>, offset: &mut usize, prefixe: char, buffers: &mut Vec<Queue<usize>>)
    requires
        is_marker(prefixe),
        *old(offset) <= chars@.len(),
        old(buffers)@.len() == 12,
        queues_wf(old(buffers)@),
    ensures
        final(buffers)@.len() == 12,
        queues_wf(final(buffers)@),
        *final(offset) == run_end(chars@, *old(offset) as int, prefixe),
        *final(offset) == *old(offset) ==> final(buffers)@ == old(buffers)@,
        *final(offset) > *old(offset) ==> ({
            let q = 3 * marker_class(prefixe) + bucket(*final(offset) - *old(offset));
            queues_view(final(buffers)@) == queues_view(old(buffers)@).update(
                q,
                queues_view(old(buffers)@)[q].push(*old(offset)),
            )
        }),
{
    let ghost s = chars@;
    proof { lemma_run_end(s, *offset as int, prefixe); }
    let start = *offset;
    let mut end = start;
    while end < chars.len() && chars[end] == prefixe
        invariant
            start <= end <= chars@.len(),
            run_end(s, start as int, prefixe) == run_end(s, end as int, prefixe),
            s == chars@,
        decreases chars.len() - end,
    {
        end = end + 1;
    }
    let occurence = end - start;
    if occurence > 0 {
        let class: usize = if prefixe == '*' { 0 } else if prefixe == '_' { 1 } else if prefixe == '`' { 2 } else { 3 };
        let col: usize = if occurence >= 3 { 2 } else { occurence - 1 };
        let q = 3 * class + col;
        assert(buffers@[q as int].wf());
        buffers[q].push(start);
        assert(queues_view(buffers@) =~= queues_view(old(buffers)@).update(
            q as int,
            queues_view(old(buffers)@)[q as int].push(start),
        ));
    }
    *offset = end;
}

/// Each queue strictly increasing.
pub open spec fn sorted_queues(qs: Seq<Seq<usize>>) -> bool {
    forall|q: int, a: int, b: int|
        0 <= q < qs.len() && 0 <= a < b < qs[q].len() ==> #[trigger] qs[q][a] < #[trigger] qs[q][b]
}

/// Each queued offset below `n`.
pub open spec fn queues_below(qs: Seq<Seq<usize>>, n: nat) -> bool {
    forall|q: int, a: int| 0 <= q < qs.len() && 0 <= a < qs[q].len() ==> #[trigger] qs[q][a] < n
}

/// Edits in increasing order of offset, each below `n`; replacements by a
/// link or an image of weight at most `w`.
pub open spec fn edits_ok(es: Seq<EditView>, n: nat, w: nat) -> bool {
    &&& forall|a: int, b: int| 0 <= a < b < es.len() ==> (#[trigger] es[a]).0.offset < (#[trigger] es[b]).0.offset
    &&& forall|a: int| 0 <= a < es.len() ==> (#[trigger] es[a]).0.offset < n
    &&& forall|a: int|
        0 <= a < es.len() ==> ((#[trigger] es[a]).1 matches Some(g) ==> !(g is Stylised) && frag_len(g) <= w)
}

/// Scans `chars`, the characters of `line`, for links, images, escapes and
/// runs of marker characters.
fn scan_line(line: &str, chars: &Vec<char>) -> (r: (Vec<Queue<usize>>, Vec<Edit>))
    requires
        chars@ == line@,
    ensures
        r.0@.len() == 12,
        queues_wf(r.0@),
        queues_view(r.0@) == scan(chars@).queues,
        edits_view(r.1@) == scan(chars@).edits,
        sorted_queues(scan(chars@).queues),
        queues_below(scan(chars@).queues, chars@.len()),
        edits_ok(scan(chars@).edits, chars@.len(), chars@.len()),
{
    let ghost s = chars@;
    let n = chars.len();
    let mut queues: Vec<Queue<usize>> = Vec::new();
    let mut i: usize = 0;
    while i < 12
        invariant
            i <= 12,
            queues@.len() == i,
            queues_wf(queues@),
            forall|q: int| 0 <= q < i ==> (#[trigger] queues@[q])@ == Seq::<usize>::empty(),
        decreases 12 - i,
    {
        queues.push(Queue::new());
        i = i + 1;
    }
    assert(queues_view(queues@) =~= empty_scan().queues);
    let mut edits: Vec<Edit> = Vec::new();
    assert(edits_view(edits@) =~= empty_scan().edits);
    let mut offset: usize = 0;
    while offset < n
        invariant
            s == chars@,
            s == line@,
            n == s.len(),
            offset <= n,
            queues@.len() == 12,
            queues_wf(queues@),
            scan(s) == scan_from(s, offset as int, ScanView { queues: queues_view(queues@), edits: edits_view(edits@) }),
            sorted_queues(queues_view(queues@)),
            queues_below(queues_view(queues@), offset as nat),
            edits_ok(edits_view(edits@), offset as nat, n as nat),
        decreases n - offset,
    {
        let ghost st = ScanView { queues: queues_view(queues@), edits: edits_view(edits@) };
        let ghost i0 = offset as int;
        let c = chars[offset];
        proof {
            if let Some(l) = link_at(s, i0) {
                let j = if s[i0] == '!' { i0 + 1 } else { i0 };
                lemma_find_char(s, j + 1, ']');
                let k = find_char(s, j + 1, ']')->0;
                lemma_find_char(s, k + 2, ')');
            }
        }
        if try_push_link_image_in(line, chars, &mut offset, &mut edits) {
            let ghost l = link_at(s, i0)->0;
            assert(scan_from(s, i0, st) == scan_from(s, offset as int, ScanView { queues: queues_view(queues@), edits: edits_view(edits@) }));
            assert(edits_ok(edits_view(edits@), offset as nat, n as nat)) by {
                let ev = edits_view(edits@);
                assert(ev.last().0.offset == i0);
            }
        } else if c == '*' || c == '_' || c == '`' || c == '~' {
            proof { lemma_run_end(s, i0, c); }
            let ghost qv0 = queues_view(queues@);
            try_push_prefixe_idx_in(chars, &mut offset, c, &mut queues);
            let ghost qv = queues_view(queues@);
            let ghost q = 3 * marker_class(c) + bucket(offset - i0);
            assert(0 <= q < 12);
            assert(qv == qv0.update(q, qv0[q].push(i0 as usize)));
            assert(sorted_queues(qv)) by {
                assert forall|qq: int, a: int, b: int|
                    0 <= qq < qv.len() && 0 <= a < b < qv[qq].len() implies #[trigger] qv[qq][a] < #[trigger] qv[qq][b] by {
                    if qq == q && b == qv0[q].len() {
                        assert(qv0[q][a] < i0);
                    } else if qq == q {
                        assert(qv[qq][a] == qv0[q][a]);
                        assert(qv[qq][b] == qv0[q][b]);
                    }
                }
            }
            assert(queues_below(qv, offset as nat)) by {
                assert forall|qq: int, a: int| 0 <= qq < qv.len() && 0 <= a < qv[qq].len() implies #[trigger] qv[qq][a] < offset as nat by {
                    if qq == q && a < qv0[q].len() {
                        assert(qv[qq][a] == qv0[q][a]);
                    }
                }
            }
        } else if c == '\\' {
            edits.push((Span::new(offset, 1), None));
            assert(edits_view(edits@) =~= st.edits.push((Span { offset: i0 as usize, length: 1 }, None)));
            offset = if n - offset >= 2 { offset + 2 } else { n };
            assert(edits_ok(edits_view(edits@), offset as nat, n as nat)) by {
                let ev = edits_view(edits@);
                assert(ev.last().0.offset == i0);
            }
        } else {
            offset = offset + 1;
        }
    }
    (queues, edits)
}

/// Total number of queued offsets.
pub open spec fn total(qs: Seq<Seq<usize>>) -> nat
    decreases qs.len(),
{
    if qs.len() == 0 {
        0
    } else {
        total(qs.drop_last()) + qs.last().len()
    }
}

pub proof fn lemma_total_update(qs: Seq<Seq<usize>>, q: int, x: Seq<usize>)
    requires
        0 <= q < qs.len(),
    ensures
        total(qs.update(q, x)) + qs[q].len() == total(qs) + x.len(),
    decreases qs.len(),
{
    if q == qs.len() - 1 {
        assert(qs.update(q, x).drop_last() =~= qs.drop_last());
    } else {
        assert(qs.update(q, x).drop_last() =~= qs.drop_last().update(q, x));
        lemma_total_update(qs.drop_last(), q, x);
    }
}

/// The style that a pair of runs of marker row `row` and length column
/// `col` gives, if any.
pub open spec fn style_of(row: int, col: int) -> Option<Style> {
    if row == 0 || row == 1 {
        if col == 0 {
            Some(Style::spec_emphasis())
        } else if col == 1 {
            Some(Style::spec_strong())
        } else {
            Some(Style::spec_emphasis().spec_union(Style::spec_strong()))
        }
    } else if row == 2 {
        Some(Style::spec_code())
    } else if col == 1 {
        Some(Style::spec_strikethrough())
    } else {
        None
    }
}

/// The styles of the queued pairs applied to `t`, earliest pair first.
pub open spec fn resolve(qs: Seq<Seq<usize>>, t: Seq<FragmentView>) -> Seq<FragmentView>
    decreases total(qs),
{
    if exists|q: int| is_min2(qs, q) {
        let q = choose|q: int| is_min2(qs, q);
        proof {
            lemma_total_update(qs, q, qs[q].skip(2));
        }
        let t2 = match style_of(q / 3, q % 3) {
            Some(st) => text_style(
                t,
                (q % 3 + 1) as nat,
                Span { offset: qs[q][0], length: (qs[q][1] - qs[q][0]) as usize },
                st,
            ),
            None => t,
        };
        resolve(qs.update(q, qs[q].skip(2)), t2)
    } else {
        t
    }
}

/// The edits applied to `t`, last first.
pub open spec fn apply_edits(t: Seq<FragmentView>, es: Seq<EditView>) -> Seq<FragmentView>
    decreases es.len(),
{
    if es.len() == 0 {
        t
    } else {
        apply_edits(text_edit(t, es.last().0, es.last().1), es.drop_last())
    }
}

/// The inline content of a line: marker pairs styled, then links, images
/// and escapes put in place from the end of the line backwards.
pub open spec fn parse_text_spec(s: Seq<char>) -> Seq<FragmentView> {
    let sc = scan(s);
    apply_edits(resolve(sc.queues, seq![FragmentView::Stylised(Style::spec_normal(), s)]), sc.edits)
}

/// The inline content of a line.
pub fn parse_text(line: &str) -> (r: Text)
    ensures
        r@ == parse_text_spec(line@),
        r.wf(),
{
    let chars = chars_of(line);
    let n = chars.len();
    let (mut queues, mut edits) = scan_line(line, &chars);
    let ghost s = line@;
    let ghost sc = scan(s);
    let ghost t0 = seq![FragmentView::Stylised(Style::spec_normal(), s)];
    let mut text = Text { content: vec![TextFragment::Stylised(Style::normal(), String::from_str(line))] };
    assert(text@ =~= t0);
    loop
        invariant
            queues@.len() == 12,
            queues_wf(queues@),
            sorted_queues(queues_view(queues@)),
            all_runs(text@, n as nat),
            resolve(sc.queues, t0) == resolve(queues_view(queues@), text@),
        ensures
            resolve(sc.queues, t0) == text@,
            all_runs(text@, n as nat),
        decreases total(queues_view(queues@)),
    {
        let ghost qs = queues_view(queues@);
        let ghost t = text@;
        let popped = pop_min2(&mut queues);
        match popped {
            None => {
                assert(!exists|q: int| is_min2(qs, q));
                break;
            },
            Some(((start, end), (x, y))) => {
                let ghost q = 3 * y + x;
                assert(q / 3 == y && q % 3 == x) by (nonlinear_arith)
                    requires q == 3 * y + x, x < 3;
                proof {
                    let cq = choose|q: int| is_min2(qs, q);
                    lemma_min2_unique(qs, q, cq);
                    lemma_total_update(qs, q, qs[q].skip(2));
                    assert(qs[q][0] < qs[q][1]);
                }
                let span = Span::from_start_end(start, end);
                proof {
                    lemma_locate(t, span.offset as nat);
                    if let Some(st) = style_of(q / 3, q % 3) {
                        lemma_text_style_runs(t, (q % 3 + 1) as nat, span, st, n as nat);
                    }
                }
                if y < 2 {
                    if x == 0 {
                        text.style(1, span, Style::emphasis());
                    } else if x == 1 {
                        text.style(2, span, Style::strong());
                    } else {
                        text.style(3, span, Style::emphasis().union(Style::strong()));
                    }
                } else if y == 2 {
                    text.style(x + 1, span, Style::code());
                } else if x == 1 {
                    text.style(2, span, Style::strikethrough());
                }
                let ghost qs2 = queues_view(queues@);
                assert(sorted_queues(qs2)) by {
                    assert forall|qq: int, a: int, b: int|
                        0 <= qq < qs2.len() && 0 <= a < b < qs2[qq].len() implies #[trigger] qs2[qq][a] < #[trigger] qs2[qq][b] by {
                        if qq == q {
                            assert(qs2[qq][a] == qs[q][a + 2]);
                            assert(qs2[qq][b] == qs[q][b + 2]);
                        }
                    }
                }
            },
        }
    }
    let ghost b: nat = (n + 1) as nat;
    let ghost t1 = text@;
    assert(others_from(text@, b));
    while edits.len() > 0
        invariant
            n <= usize::MAX,
            bounded(text@, n as nat),
            others_from(text@, b),
            edits_ok(edits_view(edits@), b, n as nat),
            apply_edits(t1, sc.edits) == apply_edits(text@, edits_view(edits@)),
        decreases edits.len(),
    {
        let ghost ev = edits_view(edits@);
        let (span, frag) = edits.pop().unwrap();
        let ghost g = match frag {
            Some(ref f) => Some(f@),
            None => None,
        };
        assert(ev.last() == (span, g));
        assert(edits_view(edits@) =~= ev.drop_last());
        proof {
            lemma_text_edit_keeps(text@, span, g, b, n as nat);
        }
        match frag {
            Some(f) => text.replace(span, f),
            None => text.remove(span),
        }
        proof {
            b = span.offset as nat;
        }
        assert(edits_ok(edits_view(edits@), b, n as nat)) by {
            let ev2 = edits_view(edits@);
            assert forall|a: int| 0 <= a < ev2.len() implies (#[trigger] ev2[a]).0.offset < b by {
                assert(ev2[a] == ev[a]);
            }
        }
    }
    text
}

proof fn lemma_resolve_text(qs: Seq<Seq<usize>>, t: Seq<FragmentView>)
    ensures
        text_of(resolve(qs, t)) == text_of(t),
    decreases total(qs),
{
    if exists|q: int| is_min2(qs, q) {
        let q = choose|q: int| is_min2(qs, q);
        lemma_total_update(qs, q, qs[q].skip(2));
        let t2 = match style_of(q / 3, q % 3) {
            Some(st) => text_style(
                t,
                (q % 3 + 1) as nat,
                Span { offset: qs[q][0], length: (qs[q][1] - qs[q][0]) as usize },
                st,
            ),
            None => t,
        };
        if let Some(st) = style_of(q / 3, q % 3) {
            lemma_text_style_text(
                t,
                (q % 3 + 1) as nat,
                Span { offset: qs[q][0], length: (qs[q][1] - qs[q][0]) as usize },
                st,
            );
        }
        lemma_resolve_text(qs.update(q, qs[q].skip(2)), t2);
    }
}

/// On a line in which the scan finds no link, image or escape, the styled
/// runs of the result, modifier runs included, spell out the line exactly.
pub proof fn lemma_conservation(s: Seq<char>)
    requires
        scan(s).edits.len() == 0,
    ensures
        text_of(parse_text_spec(s)) == s,
{
    let t0 = seq![FragmentView::Stylised(Style::spec_normal(), s)];
    lemma_resolve_text(scan(s).queues, t0);
    lemma_text_of_single(t0[0]);
    assert(t0 =~= seq![t0[0]]);
}

} // verus!
