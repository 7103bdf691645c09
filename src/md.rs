use vstd::prelude::*;
use vstd::string::StrSliceExecFns;
use vstd::string::StringExecFns;

use crate::document::{code_spans_fit, compact, compacte_nodes, lemma_compact_keeps_code_fit, nodes_view, CodeBlock, Document, ListKind, Node, NodeView, Span};
use crate::error::MdError;
use crate::inline::{chars_of, find_char, lemma_find_char, lemma_run_end, parse_text, parse_text_spec, run_end};

verus! {

/// The characters with the Unicode White_Space property.
pub open spec fn is_white(c: char) -> bool {
    ('\t' <= c && c <= '\r') || c == ' ' || c == '\u{85}' || c == '\u{a0}' || c == '\u{1680}' || ('\u{2000}'
        <= c && c <= '\u{200a}') || c == '\u{2028}' || c == '\u{2029}' || c == '\u{202f}' || c
        == '\u{205f}' || c == '\u{3000}'
}

/// Whether `c` has the Unicode White_Space property.
pub fn is_whitespace(c: char) -> (r: bool)
    ensures
        r == is_white(c),
{
    ('\t' <= c && c <= '\r') || c == ' ' || c == '\u{85}' || c == '\u{a0}' || c == '\u{1680}' || ('\u{2000}'
        <= c && c <= '\u{200a}') || c == '\u{2028}' || c == '\u{2029}' || c == '\u{202f}' || c
        == '\u{205f}' || c == '\u{3000}'
}

/// Whether `c` is in one of Unicode's numeric general categories.
pub uninterp spec fn numeric(c: char) -> bool;

/// Relies on char::is_numeric: whether `c` has a numeric general category.
#[verifier::external_body]
fn is_numeric(c: char) -> (r: bool)
    ensures
        r == numeric(c),
{
    c.is_numeric()
}

/// The first index from `i` on that holds no white space.
pub open spec fn lead_from(s: Seq<char>, i: int) -> int
    decreases s.len() - i,
{
    if i < 0 || i >= s.len() || !is_white(s[i]) {
        i
    } else {
        lead_from(s, i + 1)
    }
}

/// The end of `s.take(j)` once trailing white space is dropped.
pub open spec fn trail_to(s: Seq<char>, j: int) -> int
    decreases j,
{
    if j <= 0 || j > s.len() || !is_white(s[j - 1]) {
        j
    } else {
        trail_to(s, j - 1)
    }
}

pub open spec fn trim_start(s: Seq<char>) -> int {
    lead_from(s, 0)
}

pub open spec fn trim_end(s: Seq<char>) -> int {
    let a = lead_from(s, 0);
    let b = trail_to(s, s.len() as int);
    if b < a {
        a
    } else {
        b
    }
}

/// `s` without leading and trailing white space.
pub open spec fn trim(s: Seq<char>) -> Seq<char> {
    s.subrange(trim_start(s), trim_end(s))
}

proof fn lemma_lead_from(s: Seq<char>, i: int)
    requires
        0 <= i <= s.len(),
    ensures
        i <= lead_from(s, i) <= s.len(),
        lead_from(s, i) < s.len() ==> !is_white(s[lead_from(s, i)]),
        forall|j: int| i <= j < lead_from(s, i) ==> is_white(s[j]),
    decreases s.len() - i,
{
    if i < s.len() && is_white(s[i]) {
        lemma_lead_from(s, i + 1);
    }
}

proof fn lemma_trail_to(s: Seq<char>, j: int)
    ensures
        trail_to(s, j) <= j,
    decreases j,
{
    if 0 < j <= s.len() && is_white(s[j - 1]) {
        lemma_trail_to(s, j - 1);
    }
}

/// The bounds of the trimmed line.
fn trim_bounds(chars: &Vec<char>) -> (r: (usize, usize))
    ensures
        r.0 == trim_start(chars@),
        r.1 == trim_end(chars@),
        r.0 <= r.1 <= chars@.len(),
{
    let ghost s = chars@;
    let n = chars.len();
    let mut a: usize = 0;
    while a < n && is_whitespace(chars[a])
        invariant
            a <= n,
            n == s.len(),
            s == chars@,
            lead_from(s, 0) == lead_from(s, a as int),
        decreases n - a,
    {
        a = a + 1;
    }
    let mut b: usize = n;
    while b > a && is_whitespace(chars[b - 1])
        invariant
            a <= b <= n,
            n == s.len(),
            s == chars@,
            a == lead_from(s, 0),
            a < n ==> b > a,
            a < n ==> !is_white(s[a as int]),
            trail_to(s, n as int) == trail_to(s, b as int),
        decreases b,
    {
        b = b - 1;
    }
    proof { lemma_trail_to(s, n as int); }
    (a, b)
}

/// The trimmed line.
fn trimmed<'a>(line: &'a str, chars: &Vec<char>) -> (r: &'a str)
    requires
        chars@ == line@,
    ensures
        r@ == trim(line@),
{
    let (a, b) = trim_bounds(chars);
    line.substring_char(a, b)
}

/// The language of a fence line: exactly three backticks open the trimmed
/// line, and what follows them is the language.
pub open spec fn fence_language(s: Seq<char>) -> Option<Seq<char>> {
    let t = trim(s);
    if run_end(t, 0, '`') == 3 {
        Some(t.subrange(3, t.len() as int))
    } else {
        None
    }
}

/// The language of a fence line, if the line is one.
pub fn is_code_block_annonce(line: &str) -> (r: Option<String>)
    ensures
        match fence_language(line@) {
            Some(l) => r is Some && r->0@ == l,
            None => r is None,
        },
{
    let chars = chars_of(line);
    let t = trimmed(line, &chars);
    let tc = chars_of(t);
    proof { lemma_run_end(tc@, 0, '`'); }
    let mut k: usize = 0;
    while k < tc.len() && tc[k] == '`'
        invariant
            k <= tc@.len(),
            run_end(tc@, 0, '`') == run_end(tc@, k as int, '`'),
        decreases tc.len() - k,
    {
        k = k + 1;
    }
    if k == 3 {
        Some(String::from_str(t.substring_char(3, tc.len())))
    } else {
        None
    }
}

/// The header of a trimmed line: a run of `#`, a white space character,
/// and the text, with the level capped at five.
pub open spec fn header_spec(s: Seq<char>) -> Option<NodeView> {
    let t = trim(s);
    let k = run_end(t, 0, '#');
    if k > 0 && k < t.len() && is_white(t[k]) {
        Some(
            NodeView::Header(
                if k > 5 {
                    5
                } else {
                    k as usize
                },
                parse_text_spec(t.subrange(k + 1, t.len() as int)),
            ),
        )
    } else {
        None
    }
}

/// The header that the line makes, if any.
pub fn try_parse_header(line: &str) -> (r: Option<Node>)
    ensures
        match header_spec(line@) {
            Some(v) => r is Some && r->0@ == v,
            None => r is None,
        },
{
    let chars = chars_of(line);
    let t = trimmed(line, &chars);
    let tc = chars_of(t);
    proof { lemma_run_end(tc@, 0, '#'); }
    let mut k: usize = 0;
    while k < tc.len() && tc[k] == '#'
        invariant
            k <= tc@.len(),
            run_end(tc@, 0, '#') == run_end(tc@, k as int, '#'),
        decreases tc.len() - k,
    {
        k = k + 1;
    }
    if k > 0 && k < tc.len() && is_whitespace(tc[k]) {
        let text = parse_text(t.substring_char(k + 1, tc.len()));
        let hierachy = if k > 5 { 5 } else { k };
        Some(Node::Header(hierachy, text))
    } else {
        None
    }
}

/// How many of the first `k` characters are tabs.
pub open spec fn tabs(s: Seq<char>, k: int) -> int
    decreases k,
{
    if k <= 0 || k > s.len() {
        0
    } else {
        tabs(s, k - 1) + if s[k - 1] == '\t' {
            1int
        } else {
            0int
        }
    }
}

/// The nesting depth of a line: one per leading tab, one per four other
/// leading white space characters.
pub open spec fn depth(s: Seq<char>) -> int {
    let w = lead_from(s, 0);
    tabs(s, w) + (w - tabs(s, w)) / 4
}

proof fn lemma_tabs_bound(s: Seq<char>, k: int)
    requires
        0 <= k <= s.len(),
    ensures
        0 <= tabs(s, k) <= k,
    decreases k,
{
    if k > 0 {
        lemma_tabs_bound(s, k - 1);
    }
}

/// The nesting depth given by the line's indentation.
pub fn calcule_deepth(line: &str) -> (r: usize)
    ensures
        r == depth(line@),
{
    let chars = chars_of(line);
    let ghost s = chars@;
    let mut tab_occ: usize = 0;
    let mut space_occ: usize = 0;
    let mut i: usize = 0;
    while i < chars.len() && is_whitespace(chars[i])
        invariant
            s == chars@,
            i <= s.len(),
            lead_from(s, 0) == lead_from(s, i as int),
            tab_occ == tabs(s, i as int),
            tab_occ + space_occ == i,
        decreases chars.len() - i,
    {
        if chars[i] == '\t' {
            tab_occ = tab_occ + 1;
        } else {
            space_occ = space_occ + 1;
        }
        i = i + 1;
    }
    proof { lemma_tabs_bound(s, i as int); }
    tab_occ + space_occ / 4
}

pub open spec fn is_bullet(c: char) -> bool {
    c == '-' || c == '+' || c == '*'
}

/// An unordered list item: a bullet and a space open the trimmed line.
pub open spec fn unordered_spec(s: Seq<char>) -> Option<NodeView> {
    let t = trim(s);
    if t.len() >= 2 && is_bullet(t[0]) && t[1] == ' ' {
        Some(NodeView::List(ListKind::Unordere(depth(s) as usize), parse_text_spec(t.subrange(2, t.len() as int))))
    } else {
        None
    }
}

/// The unordered list item that the line makes, if any.
pub fn try_parse_unordered_list(line: &str) -> (r: Option<Node>)
    ensures
        match unordered_spec(line@) {
            Some(v) => r is Some && r->0@ == v,
            None => r is None,
        },
{
    let deepth = calcule_deepth(line);
    let chars = chars_of(line);
    let t = trimmed(line, &chars);
    let tc = chars_of(t);
    if tc.len() >= 2 && (tc[0] == '-' || tc[0] == '+' || tc[0] == '*') && tc[1] == ' ' {
        let text = parse_text(t.substring_char(2, tc.len()));
        Some(Node::List(ListKind::Unordere(deepth), text))
    } else {
        None
    }
}

/// The end of the run of numeric characters that starts at `i`.
pub open spec fn numeric_end(s: Seq<char>, i: int) -> int
    decreases s.len() - i,
{
    if i < 0 || i >= s.len() || !numeric(s[i]) {
        i
    } else {
        numeric_end(s, i + 1)
    }
}

/// An ordered list item: numeric characters, a dot and a space open the
/// trimmed line.
pub open spec fn ordered_spec(s: Seq<char>) -> Option<NodeView> {
    let t = trim(s);
    let k = numeric_end(t, 0);
    if k > 0 && k + 2 <= t.len() && t[k] == '.' && t[k + 1] == ' ' {
        Some(NodeView::List(ListKind::Oredred(depth(s) as usize), parse_text_spec(t.subrange(k + 2, t.len() as int))))
    } else {
        None
    }
}

proof fn lemma_numeric_end(s: Seq<char>, i: int)
    requires
        0 <= i <= s.len(),
    ensures
        i <= numeric_end(s, i) <= s.len(),
    decreases s.len() - i,
{
    if i < s.len() && numeric(s[i]) {
        lemma_numeric_end(s, i + 1);
    }
}

/// The ordered list item that the line makes, if any.
pub fn try_parse_ordered_list(line: &str) -> (r: Option<Node>)
    ensures
        match ordered_spec(line@) {
            Some(v) => r is Some && r->0@ == v,
            None => r is None,
        },
{
    let deepth = calcule_deepth(line);
    let chars = chars_of(line);
    let t = trimmed(line, &chars);
    let tc = chars_of(t);
    proof { lemma_numeric_end(tc@, 0); }
    let mut k: usize = 0;
    while k < tc.len() && is_numeric(tc[k])
        invariant
            k <= tc@.len(),
            numeric_end(tc@, 0) == numeric_end(tc@, k as int),
        decreases tc.len() - k,
    {
        k = k + 1;
    }
    if k > 0 && tc.len() >= 2 && k <= tc.len() - 2 && tc[k] == '.' && tc[k + 1] == ' ' {
        let text = parse_text(t.substring_char(k + 2, tc.len()));
        Some(Node::List(ListKind::Oredred(deepth), text))
    } else {
        None
    }
}

pub open spec fn is_rule_char(c: char) -> bool {
    c == '*' || c == '-' || c == '_'
}

/// How many of the first `k` characters are not white space.
pub open spec fn visible(s: Seq<char>, k: int) -> int
    decreases k,
{
    if k <= 0 || k > s.len() {
        0
    } else {
        visible(s, k - 1) + if is_white(s[k - 1]) {
            0int
        } else {
            1int
        }
    }
}

/// A thematic break: white space aside, one rule character three times or
/// more.
pub open spec fn is_rule(s: Seq<char>) -> bool {
    let a = lead_from(s, 0);
    &&& a < s.len()
    &&& is_rule_char(s[a])
    &&& forall|i: int| 0 <= i < s.len() && !is_white(#[trigger] s[i]) ==> s[i] == s[a]
    &&& visible(s, s.len() as int) >= 3
}

proof fn lemma_visible_bound(s: Seq<char>, k: int)
    requires
        0 <= k <= s.len(),
    ensures
        0 <= visible(s, k) <= k,
    decreases k,
{
    if k > 0 {
        lemma_visible_bound(s, k - 1);
    }
}

/// A rule, if the line is one.
pub fn try_parse_rule(line: &str) -> (r: Option<Node>)
    ensures
        is_rule(line@) ==> r matches Some(Node::Rule),
        !is_rule(line@) ==> r is None,
{
    let chars = chars_of(line);
    let ghost s = chars@;
    let mut character: Option<char> = None;
    let mut char_occ: usize = 0;
    let mut i: usize = 0;
    proof { lemma_lead_from(s, 0); }
    while i < chars.len()
        invariant
            s == chars@,
            i <= s.len(),
            char_occ == visible(s, i as int),
            s == line@,
            lead_from(s, 0) <= s.len(),
            lead_from(s, 0) < s.len() ==> !is_white(s[lead_from(s, 0)]),
            forall|j: int| 0 <= j < lead_from(s, 0) ==> is_white(#[trigger] s[j]),
            character is None ==> forall|j: int| 0 <= j < i ==> is_white(#[trigger] s[j]),
            character is None ==> i <= lead_from(s, 0),
            character matches Some(c) ==> i > lead_from(s, 0) && c == s[lead_from(s, 0)] && is_rule_char(c),
            character matches Some(c) ==> forall|j: int| 0 <= j < i && !is_white(#[trigger] s[j]) ==> s[j] == c,
        decreases chars.len() - i,
    {
        let c = chars[i];
        proof { lemma_visible_bound(s, i as int); }
        if !is_whitespace(c) {
            match character {
                Some(ch) => {
                    if ch == c {
                        char_occ = char_occ + 1;
                    } else {
                        assert(!is_white(s[i as int]) && s[i as int] != s[lead_from(s, 0)]);
                        return None;
                    }
                },
                None => {
                    if c == '*' || c == '-' || c == '_' {
                        character = Some(c);
                        char_occ = char_occ + 1;
                    } else {
                        assert(lead_from(s, 0) == i);
                        return None;
                    }
                },
            }
        }
        i = i + 1;
    }
    if character.is_some() && char_occ >= 3 {
        Some(Node::Rule)
    } else {
        None
    }
}

/// The block that a line outside a code fence makes.
pub open spec fn line_node(s: Seq<char>) -> NodeView {
    if trim(s).len() == 0 {
        NodeView::LineBreak
    } else if header_spec(s) is Some {
        header_spec(s)->0
    } else if unordered_spec(s) is Some {
        unordered_spec(s)->0
    } else if ordered_spec(s) is Some {
        ordered_spec(s)->0
    } else if is_rule(s) {
        NodeView::Rule
    } else {
        NodeView::Paragraphe(parse_text_spec(s))
    }
}

/// An open code fence: its language and the code collected so far.
pub struct FenceView {
    pub language: Seq<char>,
    pub buffer: Seq<char>,
}

pub open spec fn fence_view(c: Option<CodeBlock>) -> Option<FenceView> {
    match c {
        Some(cb) => Some(FenceView { language: cb.language@, buffer: cb.s@ }),
        None => None,
    }
}

/// One line's effect: the fence state after it, and the block it makes.
pub open spec fn parse_line_spec(st: Option<FenceView>, s: Seq<char>) -> (Option<FenceView>, Option<NodeView>) {
    match st {
        Some(f) => if fence_language(s) == Some(Seq::<char>::empty()) {
            (None, Some(NodeView::CodeBlock(f.buffer, f.language, Span { offset: 0, length: f.buffer.len() as usize })))
        } else {
            (Some(FenceView { language: f.language, buffer: f.buffer + s + seq!['\n'] }), None)
        },
        None => match fence_language(s) {
            Some(l) => (Some(FenceView { language: l, buffer: Seq::<char>::empty() }), None),
            None => (None, Some(line_node(s))),
        },
    }
}

/// Classifies one line, given and updating the open code fence, if any.
pub fn parse_line(line: &str, codeblock: &mut Option<CodeBlock>) -> (r: Option<Node>)
    ensures
        ({
            let (st, node) = parse_line_spec(fence_view(*old(codeblock)), line@);
            &&& fence_view(*final(codeblock)) == st
            &&& match node {
                Some(v) => r is Some && r->0@ == v,
                None => r is None,
            }
        }),
        r matches Some(Node::CodeBlock(cb)) ==> cb.code.fits(cb.source().len()),
{
    let current = codeblock.take();
    match current {
        Some(cb) => {
            let announce = is_code_block_annonce(line);
            let closes = match &announce {
                Some(language) => language.as_str().unicode_len() == 0,
                None => false,
            };
            if closes {
                let ghost e = Seq::<char>::empty();
                assert(announce->0@ =~= e);
                let n = cb.s.as_str().unicode_len();
                let block = CodeBlock::new(cb.s, cb.language, Span::new(0, n));
                Some(Node::CodeBlock(block))
            } else {
                let mut cb = cb;
                let ghost b0 = cb.s@;
                cb.s.append(line);
                proof { reveal_strlit("\n"); }
                cb.s.append("\n");
                assert(cb.s@ =~= b0 + line@ + seq!['\n']);
                assert(fence_language(line@) != Some(Seq::<char>::empty()));
                *codeblock = Some(cb);
                None
            }
        },
        None => {
            if let Some(language) = is_code_block_annonce(line) {
                *codeblock = Some(CodeBlock::new(String::new(), language, Span::new(0, 0)));
                return None;
            }
            let chars = chars_of(line);
            let (a, b) = trim_bounds(&chars);
            if a == b {
                return Some(Node::LineBreak);
            }
            if let Some(node) = try_parse_header(line) {
                return Some(node);
            }
            if let Some(node) = try_parse_unordered_list(line) {
                return Some(node);
            }
            if let Some(node) = try_parse_ordered_list(line) {
                return Some(node);
            }
            if let Some(node) = try_parse_rule(line) {
                return Some(node);
            }
            Some(Node::Paragraphe(parse_text(line)))
        },
    }
}

/// `l` without one final carriage return.
pub open spec fn strip_cr(l: Seq<char>) -> Seq<char> {
    if l.len() > 0 && l.last() == '\r' {
        l.drop_last()
    } else {
        l
    }
}

/// The lines from position `i` on: split at each `\n`, with a `\r` right
/// before it dropped; a final line ending makes no empty line.
pub open spec fn lines_from(s: Seq<char>, i: int) -> Seq<Seq<char>>
    decreases s.len() - i,
{
    if i < 0 || i >= s.len() {
        seq![]
    } else {
        match find_char(s, i, '\n') {
            Some(k) => {
                proof {
                    lemma_find_char(s, i, '\n');
                }
                seq![strip_cr(s.subrange(i, k))] + lines_from(s, k + 1)
            },
            None => seq![s.subrange(i, s.len() as int)],
        }
    }
}

pub open spec fn lines(s: Seq<char>) -> Seq<Seq<char>> {
    lines_from(s, 0)
}

/// The fence state and the blocks made by the first `n` lines.
pub open spec fn fold_lines(ls: Seq<Seq<char>>, n: int) -> (Option<FenceView>, Seq<NodeView>)
    decreases n,
{
    if n <= 0 {
        (None, seq![])
    } else {
        let (st, out) = fold_lines(ls, n - 1);
        let (st2, node) = parse_line_spec(st, ls[n - 1]);
        (
            st2,
            match node {
                Some(v) => out.push(v),
                None => out,
            },
        )
    }
}

/// The blocks of a whole text, compacted. A fence still open at the end
/// makes no block.
pub open spec fn markdown_spec(s: Seq<char>) -> Seq<NodeView> {
    let ls = lines(s);
    compact(fold_lines(ls, ls.len() as int).1)
}

/// A parsed text.
pub struct MarkDown(pub Document);

impl MarkDown {
    /// Parses a whole text: line by line, then compacted.
    pub fn parse(s: &str) -> (r: MarkDown)
        ensures
            nodes_view(r.0.nodes@) == markdown_spec(s@),
            code_spans_fit(nodes_view(r.0.nodes@)),
    {
        let chars = chars_of(s);
        let ghost cs = chars@;
        let ghost ls = lines(cs);
        let n = chars.len();
        let mut nodes: Vec<Node> = Vec::new();
        let mut codeblock: Option<CodeBlock> = None;
        let mut i: usize = 0;
        let ghost mut j: int = 0;
        while i < n
            invariant
                cs == chars@,
                cs == s@,
                n == cs.len(),
                i <= n,
                0 <= j <= ls.len(),
                ls.subrange(j, ls.len() as int) == lines_from(cs, i as int),
                fold_lines(ls, j) == (fence_view(codeblock), nodes_view(nodes@)),
                code_spans_fit(nodes_view(nodes@)),
            decreases n - i,
        {
            let ghost rest = lines_from(cs, i as int);
            proof { lemma_find_char(cs, i as int, '\n'); }
            let mut k = i;
            while k < n && chars[k] != '\n'
                invariant
                    i <= k <= n,
                    n == cs.len(),
                    cs == chars@,
                    find_char(cs, i as int, '\n') == find_char(cs, k as int, '\n'),
                decreases n - k,
            {
                k = k + 1;
            }
            let line_end = if k < n && k > i && chars[k - 1] == '\r' { k - 1 } else { k };
            let line = s.substring_char(i, line_end);
            let ghost next: int = if k < n { k + 1 } else { n as int };
            assert(rest =~= seq![line@] + lines_from(cs, next)) by {
                if k < n {
                    assert(find_char(cs, i as int, '\n') == Some(k as int));
                    assert(line@ =~= strip_cr(cs.subrange(i as int, k as int)));
                } else {
                    assert(find_char(cs, i as int, '\n') is None);
                    assert(lines_from(cs, next) =~= Seq::<Seq<char>>::empty());
                }
            }
            assert(j < ls.len()) by {
                assert(ls.subrange(j, ls.len() as int).len() >= 1);
            }
            assert(line@ == ls[j]) by {
                assert(ls[j] == ls.subrange(j, ls.len() as int)[0]);
            }
            let node = parse_line(line, &mut codeblock);
            let ghost out0 = nodes_view(nodes@);
            match node {
                Some(v) => {
                    nodes.push(v);
                    assert(nodes_view(nodes@) =~= out0.push(nodes@.last()@));
                },
                None => {},
            }
            i = if k < n { k + 1 } else { n };
            proof {
                j = j + 1;
                assert(ls.subrange(j, ls.len() as int) =~= lines_from(cs, i as int)) by {
                    assert(ls.subrange(j, ls.len() as int) =~= ls.subrange(j - 1, ls.len() as int).skip(1));
                    assert(rest.skip(1) =~= lines_from(cs, i as int));
                }
            }
        }
        assert(j == ls.len());
        proof {
            lemma_compact_keeps_code_fit(nodes_view(nodes@));
        }
        let nodes = compacte_nodes(nodes);
        MarkDown(Document { nodes })
    }
}

impl std::str::FromStr for MarkDown {
    type Err = MdError;

    fn from_str(s: &str) -> (r: Result<MarkDown, MdError>)
        ensures
            r is Ok && nodes_view(r->Ok_0.0.nodes@) == markdown_spec(s@),
    {
        Ok(MarkDown::parse(s))
    }
}

} // verus!
