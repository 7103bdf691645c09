use vstd::prelude::*;
use vstd::string::StrSliceExecFns;
use vstd::string::StringExecFns;

verus! {

/// A set of inline styles. `modifier` marks literal delimiter characters
/// that are kept for offset bookkeeping but not rendered.
#[derive(Debug, Clone, Copy, PartialEq, Eq, Structural)]
pub struct Style {
    pub normal: bool,
    pub strong: bool,
    pub emphasis: bool,
    pub code: bool,
    pub strikethrough: bool,
    pub modifier: bool,
}

impl Style {
    pub open spec fn spec_normal() -> Style {
        Style { normal: true, strong: false, emphasis: false, code: false, strikethrough: false, modifier: false }
    }

    pub open spec fn spec_strong() -> Style {
        Style { normal: false, strong: true, emphasis: false, code: false, strikethrough: false, modifier: false }
    }

    pub open spec fn spec_emphasis() -> Style {
        Style { normal: false, strong: false, emphasis: true, code: false, strikethrough: false, modifier: false }
    }

    pub open spec fn spec_code() -> Style {
        Style { normal: false, strong: false, emphasis: false, code: true, strikethrough: false, modifier: false }
    }

    pub open spec fn spec_strikethrough() -> Style {
        Style { normal: false, strong: false, emphasis: false, code: false, strikethrough: true, modifier: false }
    }

    pub open spec fn spec_modifier() -> Style {
        Style { normal: false, strong: false, emphasis: false, code: false, strikethrough: false, modifier: true }
    }

    #[verifier::when_used_as_spec(spec_normal)]
    pub fn normal() -> (r: Style)
        ensures
            r == Style::spec_normal(),
    {
        Style { normal: true, strong: false, emphasis: false, code: false, strikethrough: false, modifier: false }
    }

    #[verifier::when_used_as_spec(spec_strong)]
    pub fn strong() -> (r: Style)
        ensures
            r == Style::spec_strong(),
    {
        Style { normal: false, strong: true, emphasis: false, code: false, strikethrough: false, modifier: false }
    }

    #[verifier::when_used_as_spec(spec_emphasis)]
    pub fn emphasis() -> (r: Style)
        ensures
            r == Style::spec_emphasis(),
    {
        Style { normal: false, strong: false, emphasis: true, code: false, strikethrough: false, modifier: false }
    }

    #[verifier::when_used_as_spec(spec_code)]
    pub fn code() -> (r: Style)
        ensures
            r == Style::spec_code(),
    {
        Style { normal: false, strong: false, emphasis: false, code: true, strikethrough: false, modifier: false }
    }

    #[verifier::when_used_as_spec(spec_strikethrough)]
    pub fn strikethrough() -> (r: Style)
        ensures
            r == Style::spec_strikethrough(),
    {
        Style { normal: false, strong: false, emphasis: false, code: false, strikethrough: true, modifier: false }
    }

    #[verifier::when_used_as_spec(spec_modifier)]
    pub fn modifier() -> (r: Style)
        ensures
            r == Style::spec_modifier(),
    {
        Style { normal: false, strong: false, emphasis: false, code: false, strikethrough: false, modifier: true }
    }

    pub open spec fn spec_union(self, o: Style) -> Style {
        Style {
            normal: self.normal || o.normal,
            strong: self.strong || o.strong,
            emphasis: self.emphasis || o.emphasis,
            code: self.code || o.code,
            strikethrough: self.strikethrough || o.strikethrough,
            modifier: self.modifier || o.modifier,
        }
    }

    /// Every style of `self` and of `o`.
    #[verifier::when_used_as_spec(spec_union)]
    pub fn union(self, o: Style) -> (r: Style)
        ensures
            r == self.spec_union(o),
    {
        Style {
            normal: self.normal || o.normal,
            strong: self.strong || o.strong,
            emphasis: self.emphasis || o.emphasis,
            code: self.code || o.code,
            strikethrough: self.strikethrough || o.strikethrough,
            modifier: self.modifier || o.modifier,
        }
    }

    pub open spec fn spec_contains(self, o: Style) -> bool {
        &&& o.normal ==> self.normal
        &&& o.strong ==> self.strong
        &&& o.emphasis ==> self.emphasis
        &&& o.code ==> self.code
        &&& o.strikethrough ==> self.strikethrough
        &&& o.modifier ==> self.modifier
    }

    /// Whether every style of `o` is in `self`.
    #[verifier::when_used_as_spec(spec_contains)]
    pub fn contains(self, o: Style) -> (r: bool)
        ensures
            r == self.spec_contains(o),
    {
        (!o.normal || self.normal) && (!o.strong || self.strong) && (!o.emphasis || self.emphasis)
            && (!o.code || self.code) && (!o.strikethrough || self.strikethrough) && (!o.modifier
            || self.modifier)
    }
}

/// A region of a line, addressed in characters of the line before any styling.
#[derive(Debug, Clone, Copy, PartialEq, Eq, Structural)]
pub struct Span {
    pub offset: usize,
    pub length: usize,
}

impl Span {
    /// The span of `length` characters from `offset`.
    pub fn new(offset: usize, length: usize) -> (r: Span)
        ensures
            r.offset == offset,
            r.length == length,
    {
        Span { offset, length }
    }

    /// The span from `start` up to, not including, `end`.
    pub fn from_start_end(start: usize, end: usize) -> (r: Span)
        requires
            start <= end,
        ensures
            r.offset == start,
            r.length == end - start,
    {
        Span { offset: start, length: end - start }
    }

    /// Lengthens the span by `len` characters.
    pub fn extend(&mut self, len: usize)
        requires
            old(self).length + len <= usize::MAX,
        ensures
            final(self).offset == old(self).offset,
            final(self).length == old(self).length + len,
    {
        self.length = self.length + len;
    }

    /// Whether the span lies within a text of `n` characters.
    pub open spec fn fits(self, n: nat) -> bool {
        self.offset + self.length <= n
    }

    /// The characters of `s` that the span covers, if it lies within `s`.
    pub fn fetch<'a>(&self, s: &'a str) -> (r: Option<&'a str>)
        ensures
            self.fits(s@.len()) ==> r is Some && r->0@ == s@.subrange(
                self.offset as int,
                self.offset + self.length,
            ),
            !self.fits(s@.len()) ==> r is None,
    {
        let n = s.unicode_len();
        if self.offset <= n && self.length <= n - self.offset {
            Some(s.substring_char(self.offset, self.offset + self.length))
        } else {
            None
        }
    }
}


/// One run of inline content.
#[derive(Debug, PartialEq, Eq)]
pub enum TextFragment {
    /// Styled characters.
    Stylised(Style, String),
    /// Alternative text and target.
    Link(String, String),
    /// Alternative text and source.
    Image(String, String),
}

/// The mathematical value of a `TextFragment`.
pub enum FragmentView {
    Stylised(Style, Seq<char>),
    Link(Seq<char>, Seq<char>),
    Image(Seq<char>, Seq<char>),
}

impl View for TextFragment {
    type V = FragmentView;

    open spec fn view(&self) -> FragmentView {
        match self {
            TextFragment::Stylised(st, s) => FragmentView::Stylised(*st, s@),
            TextFragment::Link(alt, target) => FragmentView::Link(alt@, target@),
            TextFragment::Image(alt, source) => FragmentView::Image(alt@, source@),
        }
    }
}

/// The weight of a fragment in offset bookkeeping, in characters.
pub open spec fn frag_len(f: FragmentView) -> nat {
    match f {
        FragmentView::Stylised(_, s) => s.len(),
        FragmentView::Link(alt, target) => alt.len() + target.len(),
        FragmentView::Image(alt, source) => alt.len() + source.len(),
    }
}

/// A run of style `st` holding `s`, or nothing where `s` is empty.
pub open spec fn piece(st: Style, s: Seq<char>) -> Seq<FragmentView> {
    if s.len() == 0 {
        seq![]
    } else {
        seq![FragmentView::Stylised(st, s)]
    }
}

/// `f` with the characters of `span` styled by `st` and `p` characters
/// at each end of the span turned into modifier runs.
pub open spec fn style_in_spec(f: FragmentView, span: Span, p: nat, st: Style) -> Seq<FragmentView> {
    match f {
        FragmentView::Stylised(init, s) => {
            if span.length < p || span.offset + span.length + p > s.len() {
                seq![f]
            } else {
                let o = span.offset as int;
                let l = span.length as int;
                piece(init, s.subrange(0, o)) + piece(Style::spec_modifier(), s.subrange(o, o + p))
                    + piece(init.spec_union(st), s.subrange(o + p, o + l)) + piece(
                    Style::spec_modifier(),
                    s.subrange(o + l, o + l + p),
                ) + piece(init, s.subrange(o + l + p, s.len() as int))
            }
        },
        _ => seq![f],
    }
}

/// `f` with the characters of `span` replaced by `g`.
pub open spec fn replace_spec(f: FragmentView, span: Span, g: FragmentView) -> Seq<FragmentView> {
    match f {
        FragmentView::Stylised(init, s) => {
            if span.offset + span.length > s.len() {
                seq![f]
            } else {
                seq![
                    FragmentView::Stylised(init, s.subrange(0, span.offset as int)),
                    g,
                    FragmentView::Stylised(init, s.subrange(span.offset + span.length, s.len() as int)),
                ]
            }
        },
        _ => seq![f],
    }
}

/// `f` without the characters of `span`.
pub open spec fn remove_spec(f: FragmentView, span: Span) -> Seq<FragmentView> {
    match f {
        FragmentView::Stylised(init, s) => {
            if span.offset + span.length > s.len() {
                seq![f]
            } else {
                seq![
                    FragmentView::Stylised(init, s.subrange(0, span.offset as int)),
                    FragmentView::Stylised(init, s.subrange(span.offset + span.length, s.len() as int)),
                ]
            }
        },
        _ => seq![f],
    }
}

fn sub_string(s: &String, from: usize, to: usize) -> (r: String)
    requires
        from <= to <= s@.len(),
    ensures
        r@ == s@.subrange(from as int, to as int),
{
    String::from_str(s.as_str().substring_char(from, to))
}

impl Default for TextFragment {
    /// An empty normal run.
    fn default() -> (r: TextFragment)
        ensures
            r@ == FragmentView::Stylised(Style::spec_normal(), Seq::<char>::empty()),
    {
        let r = TextFragment::Stylised(Style::normal(), String::new());
        assert(r@ =~= FragmentView::Stylised(Style::spec_normal(), Seq::<char>::empty()));
        r
    }
}

/// Appends a run of `st` holding `s`, unless `s` is empty.
fn push_piece(v: &mut Vec<TextFragment>, st: Style, s: String)
    ensures
        final(v)@.map_values(|f: TextFragment| f@) == old(v)@.map_values(|f: TextFragment| f@)
            + piece(st, s@),
{
    if s.as_str().unicode_len() > 0 {
        let ghost sv = s@;
        v.push(TextFragment::Stylised(st, s));
        assert(final(v)@.map_values(|f: TextFragment| f@) =~= old(v)@.map_values(|f: TextFragment| f@)
            + piece(st, sv));
    } else {
        assert(old(v)@.map_values(|f: TextFragment| f@) + piece(st, s@) =~= old(v)@.map_values(|f: TextFragment| f@));
    }
}

impl TextFragment {
    /// Whether the fragment's weight fits in a `usize`.
    pub open spec fn wf(&self) -> bool {
        frag_len(self@) <= usize::MAX
    }

    /// The fragment's weight in offset bookkeeping: the characters of a
    /// run, or those of the alternative text and the target together.
    pub fn len(&self) -> (r: usize)
        requires
            self.wf(),
        ensures
            r == frag_len(self@),
    {
        match self {
            TextFragment::Stylised(_, s) => s.as_str().unicode_len(),
            TextFragment::Link(alt, target) => alt.as_str().unicode_len() + target.as_str().unicode_len(),
            TextFragment::Image(alt, source) => alt.as_str().unicode_len() + source.as_str().unicode_len(),
        }
    }

    /// Splits a run into the part before the span, an opening modifier run
    /// of `prefixe_len` characters, the middle with `style` added, a closing
    /// modifier run of `prefixe_len` characters from the span's end, and the
    /// rest; empty parts are left out. A span that does not fit leaves the
    /// run whole.
    pub fn style_in(self, span: Span, prefixe_len: usize, style: Style) -> (r: Vec<TextFragment>)
        requires
            self is Stylised,
        ensures
            r@.map_values(|f: TextFragment| f@) == style_in_spec(self@, span, prefixe_len as nat, style),
    {
        match self {
            TextFragment::Stylised(initial_style, s) => {
                let n = s.as_str().unicode_len();
                if span.length < prefixe_len || span.offset > n || span.length > n - span.offset
                    || prefixe_len > n - span.offset - span.length {
                    let r = vec![TextFragment::Stylised(initial_style, s)];
                    assert(r@.map_values(|f: TextFragment| f@) =~= seq![self@]);
                    return r;
                }
                let o = span.offset;
                let l = span.length;
                let p = prefixe_len;
                let left_part = sub_string(&s, 0, o);
                let left_modifier = sub_string(&s, o, o + p);
                let middle_part = sub_string(&s, o + p, o + l);
                let right_modifier = sub_string(&s, o + l, o + l + p);
                let right_part = sub_string(&s, o + l + p, n);
                let mut texts: Vec<TextFragment> = Vec::new();
                push_piece(&mut texts, initial_style, left_part);
                push_piece(&mut texts, Style::modifier(), left_modifier);
                push_piece(&mut texts, initial_style.union(style), middle_part);
                push_piece(&mut texts, Style::modifier(), right_modifier);
                push_piece(&mut texts, initial_style, right_part);
                assert(texts@.map_values(|f: TextFragment| f@) =~= style_in_spec(self@, span, prefixe_len as nat, style));
                texts
            },
            _ => {
                vec![self]
            },
        }
    }

    /// Splits a run into the part before the span, `frag`, and the part
    /// after it. A span that does not fit leaves the run whole.
    pub fn replace(self, span: Span, frag: TextFragment) -> (r: Vec<TextFragment>)
        requires
            self is Stylised,
        ensures
            r@.map_values(|f: TextFragment| f@) == replace_spec(self@, span, frag@),
    {
        match self {
            TextFragment::Stylised(initial_style, s) => {
                let n = s.as_str().unicode_len();
                if span.offset > n || span.length > n - span.offset {
                    let r = vec![TextFragment::Stylised(initial_style, s)];
                    assert(r@.map_values(|f: TextFragment| f@) =~= seq![self@]);
                    return r;
                }
                let left_part = sub_string(&s, 0, span.offset);
                let right_part = sub_string(&s, span.offset + span.length, n);
                let ghost g = frag@;
                let r = vec![
                    TextFragment::Stylised(initial_style, left_part),
                    frag,
                    TextFragment::Stylised(initial_style, right_part),
                ];
                assert(r@.map_values(|f: TextFragment| f@) =~= replace_spec(self@, span, g));
                r
            },
            _ => {
                vec![self]
            },
        }
    }

    /// Splits a run into the parts before and after the span. A span that
    /// does not fit leaves the run whole.
    pub fn remove(self, span: Span) -> (r: Vec<TextFragment>)
        requires
            self is Stylised,
        ensures
            r@.map_values(|f: TextFragment| f@) == remove_spec(self@, span),
    {
        match self {
            TextFragment::Stylised(initial_style, s) => {
                let n = s.as_str().unicode_len();
                if span.offset > n || span.length > n - span.offset {
                    let r = vec![TextFragment::Stylised(initial_style, s)];
                    assert(r@.map_values(|f: TextFragment| f@) =~= seq![self@]);
                    return r;
                }
                let left_part = sub_string(&s, 0, span.offset);
                let right_part = sub_string(&s, span.offset + span.length, n);
                let r = vec![
                    TextFragment::Stylised(initial_style, left_part),
                    TextFragment::Stylised(initial_style, right_part),
                ];
                assert(r@.map_values(|f: TextFragment| f@) =~= remove_spec(self@, span));
                r
            },
            _ => {
                vec![self]
            },
        }
    }
}

/// The values of a sequence of fragments.
pub open spec fn frags_view(v: Seq<TextFragment>) -> Seq<FragmentView> {
    v.map_values(|f: TextFragment| f@)
}

/// Total weight of the first `i` fragments: where fragment `i` starts.
pub open spec fn prefix_len(fs: Seq<FragmentView>, i: int) -> nat
    decreases i,
{
    if i <= 0 {
        0
    } else {
        prefix_len(fs, i - 1) + frag_len(fs[i - 1])
    }
}

/// The first fragment, from index `i` on, that ends after offset `o`,
/// with `o` in its own coordinates.
pub open spec fn locate_from(fs: Seq<FragmentView>, o: nat, i: int) -> Option<(int, nat)>
    decreases fs.len() - i,
{
    if i < 0 || i >= fs.len() {
        None
    } else if o < prefix_len(fs, i + 1) {
        Some((i, (o - prefix_len(fs, i)) as nat))
    } else {
        locate_from(fs, o, i + 1)
    }
}

/// The fragment that holds offset `o`, and `o` in its own coordinates.
pub open spec fn locate(fs: Seq<FragmentView>, o: nat) -> Option<(int, nat)> {
    locate_from(fs, o, 0)
}

/// Whether the fragment at offset `o`, if any, is a styled run.
pub open spec fn located_stylised(fs: Seq<FragmentView>, o: nat) -> bool {
    match locate(fs, o) {
        Some((i, _)) => fs[i] is Stylised,
        None => true,
    }
}

/// `fs` with fragment `i` replaced by `parts`.
pub open spec fn splice(fs: Seq<FragmentView>, i: int, parts: Seq<FragmentView>) -> Seq<FragmentView> {
    fs.take(i) + parts + fs.skip(i + 1)
}

pub open spec fn text_style(fs: Seq<FragmentView>, p: nat, span: Span, st: Style) -> Seq<FragmentView> {
    match locate(fs, span.offset as nat) {
        Some((i, lo)) => splice(fs, i, style_in_spec(fs[i], Span { offset: lo as usize, length: span.length }, p, st)),
        None => fs,
    }
}

pub open spec fn text_replace(fs: Seq<FragmentView>, span: Span, g: FragmentView) -> Seq<FragmentView> {
    match locate(fs, span.offset as nat) {
        Some((i, lo)) => splice(fs, i, replace_spec(fs[i], Span { offset: lo as usize, length: span.length }, g)),
        None => fs,
    }
}

pub open spec fn text_remove(fs: Seq<FragmentView>, span: Span) -> Seq<FragmentView> {
    match locate(fs, span.offset as nat) {
        Some((i, lo)) => splice(fs, i, remove_spec(fs[i], Span { offset: lo as usize, length: span.length })),
        None => fs,
    }
}

/// Whether every fragment's weight fits in a `usize`.
pub open spec fn frags_wf(fs: Seq<FragmentView>) -> bool {
    forall|i: int| 0 <= i < fs.len() ==> #[trigger] frag_len(fs[i]) <= usize::MAX
}

/// The inline content of one block.
#[derive(Debug, PartialEq, Eq)]
pub struct Text {
    pub content: Vec<TextFragment>,
}

impl View for Text {
    type V = Seq<FragmentView>;

    open spec fn view(&self) -> Seq<FragmentView> {
        frags_view(self.content@)
    }
}

impl Text {
    pub open spec fn wf(&self) -> bool {
        frags_wf(self@)
    }

    /// Appends a line break and then the fragments of `text`.
    pub fn appendnl(&mut self, text: Text)
        ensures
            final(self)@ == old(self)@ + seq![FragmentView::Stylised(Style::spec_normal(), seq!['\n'])]
                + text@,
    {
        let mut text = text;
        let ghost tv = text@;
        let ghost sv = self@;
        proof {
            reveal_strlit("\n");
        }
        let nl = String::from_str("\n");
        assert(nl@ =~= seq!['\n']);
        self.content.push(TextFragment::Stylised(Style::normal(), nl));
        self.content.append(&mut text.content);
        assert(self@ =~= sv + seq![FragmentView::Stylised(Style::spec_normal(), seq!['\n'])] + tv);
    }

    fn find_modified_fragment(&self, span: &mut Span) -> (r: Option<usize>)
        requires
            self.wf(),
        ensures
            match locate(self@, old(span).offset as nat) {
                Some((i, lo)) => r is Some && r->0 == i && final(span).offset == lo && final(span).length
                    == old(span).length,
                None => r is None && *final(span) == *old(span),
            },
            r is Some ==> r->0 < self.content.len(),
    {
        let mut offset: usize = 0;
        let mut idx: usize = 0;
        let n = self.content.len();
        let ghost fs = self@;
        while idx < n
            invariant
                n == self.content.len(),
                fs == self@,
                frags_wf(fs),
                0 <= idx <= n,
                offset == prefix_len(fs, idx as int),
                offset <= span.offset,
                span == old(span),
                locate(fs, span.offset as nat) == locate_from(fs, span.offset as nat, idx as int),
            decreases n - idx,
        {
            let len = self.content[idx].len();
            assert(frag_len(fs[idx as int]) == len);
            if span.offset - offset < len {
                span.offset = span.offset - offset;
                return Some(idx);
            }
            offset = offset + len;
            idx = idx + 1;
        }
        None
    }

    /// Styles `span` with `style`, turning `prefixe_len` characters at each
    /// of its ends into modifier runs. Leaves the text as it is where the
    /// span does not fit in the fragment that holds its offset.
    pub fn style(&mut self, prefixe_len: usize, span: Span, style: Style)
        requires
            old(self).wf(),
            located_stylised(old(self)@, span.offset as nat),
        ensures
            final(self)@ == text_style(old(self)@, prefixe_len as nat, span, style),
    {
        let mut span = span;
        let modified_fragment = self.find_modified_fragment(&mut span);
        if let Some(idx) = modified_fragment {
            let ghost fs = self@;
            let mut tail = self.content.split_off(idx);
            let text_fragment = tail.remove(0);
            assert(text_fragment@ == fs[idx as int]);
            let mut parts = text_fragment.style_in(span, prefixe_len, style);
            let ghost pv = frags_view(parts@);
            self.content.append(&mut parts);
            self.content.append(&mut tail);
            assert(self@ =~= splice(fs, idx as int, pv));
        }
    }

    /// Puts `frag` in place of the characters of `span`.
    pub fn replace(&mut self, span: Span, frag: TextFragment)
        requires
            old(self).wf(),
            located_stylised(old(self)@, span.offset as nat),
        ensures
            final(self)@ == text_replace(old(self)@, span, frag@),
    {
        let mut span = span;
        let modified_fragment = self.find_modified_fragment(&mut span);
        if let Some(idx) = modified_fragment {
            let ghost fs = self@;
            let mut tail = self.content.split_off(idx);
            let text_fragment = tail.remove(0);
            assert(text_fragment@ == fs[idx as int]);
            let mut parts = text_fragment.replace(span, frag);
            let ghost pv = frags_view(parts@);
            self.content.append(&mut parts);
            self.content.append(&mut tail);
            assert(self@ =~= splice(fs, idx as int, pv));
        }
    }

    /// Drops the characters of `span`.
    pub fn remove(&mut self, span: Span)
        requires
            old(self).wf(),
            located_stylised(old(self)@, span.offset as nat),
        ensures
            final(self)@ == text_remove(old(self)@, span),
    {
        let mut span = span;
        let modified_fragment = self.find_modified_fragment(&mut span);
        if let Some(idx) = modified_fragment {
            let ghost fs = self@;
            let mut tail = self.content.split_off(idx);
            let text_fragment = tail.remove(0);
            assert(text_fragment@ == fs[idx as int]);
            let mut parts = text_fragment.remove(span);
            let ghost pv = frags_view(parts@);
            self.content.append(&mut parts);
            self.content.append(&mut tail);
            assert(self@ =~= splice(fs, idx as int, pv));
        }
    }
}

/// A fenced block of code: the buffer it was collected in, its language,
/// and the part of the buffer that is the code.
#[derive(Debug, PartialEq, Eq)]
pub struct CodeBlock {
    pub s: String,
    pub language: String,
    pub code: Span,
}

impl CodeBlock {
    pub open spec fn source(&self) -> Seq<char> {
        self.s@
    }

    /// A code block over the buffer `s`, with its code at `code`.
    pub fn new(s: String, language: String, code: Span) -> (r: CodeBlock)
        ensures
            r.source() == s@,
            r.language@ == language@,
            r.code == code,
    {
        CodeBlock { s, language, code }
    }

    /// The code, if its span lies within the buffer.
    pub fn fetch(&self) -> (r: Option<&str>)
        ensures
            self.code.fits(self.source().len()) ==> r is Some && r->0@ == self.source().subrange(
                self.code.offset as int,
                self.code.offset + self.code.length,
            ),
            !self.code.fits(self.source().len()) ==> r is None,
    {
        self.code.fetch(self.s.as_str())
    }
}

/// The kind of a list item and its nesting depth.
#[derive(Debug, Clone, Copy, PartialEq, Eq, Structural)]
pub enum ListKind {
    Oredred(usize),
    Unordere(usize),
}

impl ListKind {
    pub open spec fn spec_deepth(&self) -> usize {
        match self {
            ListKind::Oredred(d) => *d,
            ListKind::Unordere(d) => *d,
        }
    }

    /// The nesting depth of the item.
    #[verifier::when_used_as_spec(spec_deepth)]
    pub fn deepth(&self) -> (r: usize)
        ensures
            r == self.spec_deepth(),
    {
        match self {
            ListKind::Oredred(d) => *d,
            ListKind::Unordere(d) => *d,
        }
    }
}

/// One block of a document.
#[derive(Debug, PartialEq, Eq)]
pub enum Node {
    Header(usize, Text),
    Paragraphe(Text),
    List(ListKind, Text),
    CodeBlock(CodeBlock),
    LineBreak,
    Rule,
}

/// The mathematical value of a `Node`.
pub enum NodeView {
    Header(usize, Seq<FragmentView>),
    Paragraphe(Seq<FragmentView>),
    List(ListKind, Seq<FragmentView>),
    /// Buffer, language and code span.
    CodeBlock(Seq<char>, Seq<char>, Span),
    LineBreak,
    Rule,
}

impl View for Node {
    type V = NodeView;

    open spec fn view(&self) -> NodeView {
        match self {
            Node::Header(level, t) => NodeView::Header(*level, t@),
            Node::Paragraphe(t) => NodeView::Paragraphe(t@),
            Node::List(kind, t) => NodeView::List(*kind, t@),
            Node::CodeBlock(c) => NodeView::CodeBlock(c.source(), c.language@, c.code),
            Node::LineBreak => NodeView::LineBreak,
            Node::Rule => NodeView::Rule,
        }
    }
}

pub open spec fn nodes_view(v: Seq<Node>) -> Seq<NodeView> {
    v.map_values(|n: Node| n@)
}

/// A parsed document: its blocks in order.
#[derive(Debug, PartialEq, Eq)]
pub struct Document {
    pub nodes: Vec<Node>,
}

/// The running state of compaction: the blocks emitted so far, the
/// paragraph being collected, and whether a following blank line is absorbed.
pub struct CompactState {
    pub out: Seq<NodeView>,
    pub para: Option<Seq<FragmentView>>,
    pub has_br: bool,
}

/// The fragment that joins two merged paragraph lines.
pub open spec fn newline_frag() -> FragmentView {
    FragmentView::Stylised(Style::spec_normal(), seq!['\n'])
}

/// Compaction's treatment of one block.
pub open spec fn compact_step(st: CompactState, node: NodeView) -> CompactState {
    let out1 = if !(node is Paragraphe) && st.para is Some {
        st.out.push(NodeView::Paragraphe(st.para->0))
    } else {
        st.out
    };
    let para1 = if !(node is Paragraphe) {
        None
    } else {
        st.para
    };
    let br1 = if node is LineBreak {
        st.has_br
    } else {
        false
    };
    match node {
        NodeView::Paragraphe(t) => CompactState {
            out: out1,
            para: match para1 {
                Some(p) => Some(p + seq![newline_frag()] + t),
                None => Some(t),
            },
            has_br: br1,
        },
        NodeView::LineBreak => if br1 {
            CompactState { out: out1, para: para1, has_br: br1 }
        } else {
            CompactState { out: out1.push(node), para: para1, has_br: true }
        },
        NodeView::Header(_, _) => CompactState { out: out1.push(node), para: para1, has_br: true },
        _ => CompactState { out: out1.push(node), para: para1, has_br: br1 },
    }
}

/// The state after the first `n` blocks.
pub open spec fn compact_prefix(nodes: Seq<NodeView>, n: int) -> CompactState
    decreases n,
{
    if n <= 0 {
        CompactState { out: seq![], para: None, has_br: false }
    } else {
        compact_step(compact_prefix(nodes, n - 1), nodes[n - 1])
    }
}

/// The blocks emitted once the pending paragraph, if any, is flushed.
pub open spec fn flush(st: CompactState) -> Seq<NodeView> {
    match st.para {
        Some(p) => st.out.push(NodeView::Paragraphe(p)),
        None => st.out,
    }
}

/// Adjacent paragraphs merged, a blank line after a blank line or a
/// heading dropped.
pub open spec fn compact(nodes: Seq<NodeView>) -> Seq<NodeView> {
    flush(compact_prefix(nodes, nodes.len() as int))
}

/// The items of `v` in the opposite order.
pub fn reversed<T>(v: Vec<T>) -> (r: Vec<T>)
    ensures
        r@ == v@.reverse(),
{
    let mut v = v;
    let mut r: Vec<T> = Vec::new();
    let ghost v0 = v@;
    while v.len() > 0
        invariant
            v@ == v0.take(v@.len() as int),
            v@.len() <= v0.len(),
            r@ == v0.skip(v@.len() as int).reverse(),
        decreases v.len(),
    {
        let x = v.pop().unwrap();
        r.push(x);
        assert(r@ =~= v0.skip(v@.len() as int).reverse());
        assert(v@ =~= v0.take(v@.len() as int));
    }
    assert(r@ =~= v0.reverse());
    r
}

/// Merges adjacent paragraphs, joined by a line break fragment, and drops
/// a blank line that follows a blank line or a heading.
pub fn compacte_nodes(nodes: Vec<Node>) -> (r: Vec<Node>)
    ensures
        nodes_view(r@) == compact(nodes_view(nodes@)),
{
    let ghost nv = nodes_view(nodes@);
    let mut new_nodes: Vec<Node> = Vec::new();
    let mut in_paragraphe: Option<Text> = None;
    let mut has_br = false;
    let mut nodes = reversed(nodes);
    while nodes.len() > 0
        invariant
            forall|i: int| 0 <= i < nodes@.len() ==> #[trigger] nodes@[i]@ == nv[nv.len() - 1 - i],
            nodes@.len() <= nv.len(),
            ({
                let st = compact_prefix(nv, nv.len() - nodes@.len());
                &&& nodes_view(new_nodes@) == st.out
                &&& has_br == st.has_br
                &&& match in_paragraphe {
                    Some(t) => st.para == Some(t@),
                    None => st.para is None,
                }
            }),
        decreases nodes.len(),
    {
        let ghost k = nv.len() - nodes@.len();
        let node = nodes.pop().unwrap();
        assert(node@ == nv[k]);
        let is_para = match node {
            Node::Paragraphe(_) => true,
            _ => false,
        };
        if !is_para {
            let taken = in_paragraphe;
            in_paragraphe = None;
            match taken {
                Some(text) => {
                    new_nodes.push(Node::Paragraphe(text));
                },
                None => {},
            }
        }
        let is_br = match node {
            Node::LineBreak => true,
            _ => false,
        };
        if !is_br {
            has_br = false;
        }
        match node {
            Node::Paragraphe(text) => {
                let taken = in_paragraphe;
                in_paragraphe = match taken {
                    Some(p_text) => {
                        let mut p_text = p_text;
                        p_text.appendnl(text);
                        Some(p_text)
                    },
                    None => Some(text),
                };
            },
            Node::LineBreak => {
                if !has_br {
                    new_nodes.push(node);
                    has_br = true;
                }
            },
            Node::Header(_, _) => {
                has_br = true;
                new_nodes.push(node);
            },
            _ => {
                new_nodes.push(node);
            },
        }
        assert(nodes_view(new_nodes@) =~= compact_prefix(nv, k + 1).out);
    }
    let taken = in_paragraphe;
    match taken {
        Some(text) => {
            new_nodes.push(Node::Paragraphe(text));
        },
        None => {},
    }
    assert(nodes_view(new_nodes@) =~= compact(nv));
    new_nodes
}

/// No two adjacent paragraphs, and no blank line right after a blank line
/// or a heading.
pub open spec fn is_compact(ys: Seq<NodeView>) -> bool {
    forall|i: int|
        #![trigger ys[i]]
        1 <= i < ys.len() ==> {
            &&& !(ys[i - 1] is Paragraphe && ys[i] is Paragraphe)
            &&& ys[i] is LineBreak ==> !(ys[i - 1] is LineBreak || ys[i - 1] is Header)
        }
}

spec fn emitted_inv(st: CompactState) -> bool {
    let n = st.out.len();
    &&& is_compact(st.out)
    &&& st.para is Some ==> (n == 0 || !(st.out[n - 1] is Paragraphe)) && !st.has_br
    &&& st.has_br ==> n > 0 && (st.out[n - 1] is LineBreak || st.out[n - 1] is Header)
    &&& (st.para is None && n > 0 && (st.out[n - 1] is LineBreak || st.out[n - 1] is Header))
        ==> st.has_br
}

proof fn lemma_compact_prefix_emits_compact(xs: Seq<NodeView>, n: int)
    requires
        0 <= n <= xs.len(),
    ensures
        emitted_inv(compact_prefix(xs, n)),
    decreases n,
{
    if n > 0 {
        lemma_compact_prefix_emits_compact(xs, n - 1);
        let st = compact_prefix(xs, n - 1);
        let st2 = compact_prefix(xs, n);
        assert(st2 == compact_step(st, xs[n - 1]));
        let m = st.out.len() as int;
        assert forall|i: int| #![trigger st2.out[i]] 1 <= i < st2.out.len() implies {
            &&& !(st2.out[i - 1] is Paragraphe && st2.out[i] is Paragraphe)
            &&& st2.out[i] is LineBreak ==> !(st2.out[i - 1] is LineBreak || st2.out[i - 1] is Header)
        } by {
            if i < m {
                assert(st2.out[i] == st.out[i]);
                assert(st2.out[i - 1] == st.out[i - 1]);
            } else if i == m {
                assert(st2.out[i - 1] == st.out[i - 1]);
            } else {
                assert(st2.out[i - 1] == st2.out[m]);
            }
        }
    }
}

proof fn lemma_compact_prefix_of_compact(ys: Seq<NodeView>, n: int)
    requires
        0 <= n <= ys.len(),
        is_compact(ys),
    ensures
        ({
            let st = compact_prefix(ys, n);
            if n > 0 && ys[n - 1] is Paragraphe {
                &&& st.out == ys.take(n - 1)
                &&& st.para == Some(ys[n - 1]->Paragraphe_0)
                &&& !st.has_br
            } else {
                &&& st.out == ys.take(n)
                &&& st.para is None
                &&& st.has_br == (n > 0 && (ys[n - 1] is LineBreak || ys[n - 1] is Header))
            }
        }),
    decreases n,
{
    if n > 0 {
        lemma_compact_prefix_of_compact(ys, n - 1);
        let st = compact_prefix(ys, n - 1);
        assert(compact_prefix(ys, n) == compact_step(st, ys[n - 1]));
        if n > 1 {
            assert(ys[n - 1] == ys[n - 1]);
        }
        if n > 1 && ys[n - 2] is Paragraphe {
            assert(ys.take(n - 2).push(ys[n - 2]) =~= ys.take(n - 1));
        }
        assert(ys.take(n - 1).push(ys[n - 1]) =~= ys.take(n));
    }
}

/// What compaction emits never holds two adjacent paragraphs, nor a blank
/// line right after a blank line or a heading.
pub proof fn lemma_compact_is_compact(xs: Seq<NodeView>)
    ensures
        is_compact(compact(xs)),
{
    let ys = compact(xs);
    lemma_compact_prefix_emits_compact(xs, xs.len() as int);
    let st = compact_prefix(xs, xs.len() as int);
    if st.para is Some {
        let m = st.out.len() as int;
        assert forall|i: int| #![trigger ys[i]] 1 <= i < ys.len() implies {
            &&& !(ys[i - 1] is Paragraphe && ys[i] is Paragraphe)
            &&& ys[i] is LineBreak ==> !(ys[i - 1] is LineBreak || ys[i - 1] is Header)
        } by {
            if i < m {
                assert(ys[i] == st.out[i]);
                assert(ys[i - 1] == st.out[i - 1]);
            } else {
                assert(ys[i - 1] == st.out[i - 1]);
            }
        }
    }
}

/// Compacting a compacted sequence of blocks changes nothing.
pub proof fn lemma_compact_idempotent(xs: Seq<NodeView>)
    ensures
        compact(compact(xs)) == compact(xs),
{
    let ys = compact(xs);
    lemma_compact_is_compact(xs);
    lemma_compact_prefix_of_compact(ys, ys.len() as int);
    let n = ys.len() as int;
    if n > 0 && ys[n - 1] is Paragraphe {
        assert(ys.take(n - 1).push(ys[n - 1]) =~= ys);
    } else {
        assert(ys.take(n) =~= ys);
    }
}

pub proof fn lemma_prefix_mono(fs: Seq<FragmentView>, i: int, j: int)
    requires
        i <= j,
    ensures
        prefix_len(fs, i) <= prefix_len(fs, j),
    decreases j - i,
{
    if i < j {
        lemma_prefix_mono(fs, i, j - 1);
    }
}

pub proof fn lemma_prefix_concat(a: Seq<FragmentView>, b: Seq<FragmentView>, k: int)
    requires
        0 <= k <= a.len() + b.len(),
    ensures
        k <= a.len() ==> prefix_len(a + b, k) == prefix_len(a, k),
        k >= a.len() ==> prefix_len(a + b, k) == prefix_len(a, a.len() as int) + prefix_len(b, k - a.len()),
    decreases k,
{
    if k > 0 {
        lemma_prefix_concat(a, b, k - 1);
        if k > a.len() {
            assert((a + b)[k - 1] == b[k - 1 - a.len()]);
        } else {
            assert((a + b)[k - 1] == a[k - 1]);
        }
    }
}

pub proof fn lemma_locate_from(fs: Seq<FragmentView>, o: nat, i: int)
    requires
        0 <= i,
        prefix_len(fs, i) <= o,
    ensures
        match locate_from(fs, o, i) {
            Some((k, lo)) => i <= k < fs.len() && prefix_len(fs, k) + lo == o && lo < frag_len(fs[k]),
            None => prefix_len(fs, fs.len() as int) <= o,
        },
    decreases fs.len() - i,
{
    if i < fs.len() && o >= prefix_len(fs, i + 1) {
        lemma_locate_from(fs, o, i + 1);
    } else if i > fs.len() {
        lemma_prefix_mono(fs, fs.len() as int, i);
    }
}

pub proof fn lemma_locate(fs: Seq<FragmentView>, o: nat)
    ensures
        match locate(fs, o) {
            Some((k, lo)) => 0 <= k < fs.len() && prefix_len(fs, k) + lo == o && lo < frag_len(fs[k]),
            None => prefix_len(fs, fs.len() as int) <= o,
        },
{
    lemma_locate_from(fs, o, 0);
}

/// Whether every fragment is a styled run of at most `n` characters.
pub open spec fn all_runs(fs: Seq<FragmentView>, n: nat) -> bool {
    forall|i: int| 0 <= i < fs.len() ==> #[trigger] fs[i] is Stylised && frag_len(fs[i]) <= n
}

pub proof fn lemma_piece_runs(st: Style, s: Seq<char>, n: nat)
    requires
        s.len() <= n,
    ensures
        all_runs(piece(st, s), n),
{
}

pub proof fn lemma_text_style_runs(fs: Seq<FragmentView>, p: nat, span: Span, st: Style, n: nat)
    requires
        all_runs(fs, n),
    ensures
        all_runs(text_style(fs, p, span, st), n),
{
    match locate(fs, span.offset as nat) {
        Some((i, lo)) => {
            lemma_locate(fs, span.offset as nat);
            let f = fs[i];
            let sp = Span { offset: lo as usize, length: span.length };
            let parts = style_in_spec(f, sp, p, st);
            match f {
                FragmentView::Stylised(init, s) => {
                    if !(sp.length < p || sp.offset + sp.length + p > s.len()) {
                        let o = sp.offset as int;
                        let l = sp.length as int;
                        lemma_piece_runs(init, s.subrange(0, o), n);
                        lemma_piece_runs(Style::spec_modifier(), s.subrange(o, o + p), n);
                        lemma_piece_runs(init.spec_union(st), s.subrange(o + p, o + l), n);
                        lemma_piece_runs(Style::spec_modifier(), s.subrange(o + l, o + l + p), n);
                        lemma_piece_runs(init, s.subrange(o + l + p, s.len() as int), n);
                    }
                },
                _ => {},
            }
            assert(all_runs(parts, n));
            let r = splice(fs, i, parts);
            assert forall|k: int| 0 <= k < r.len() implies #[trigger] r[k] is Stylised && frag_len(r[k]) <= n by {
                if k < i {
                    assert(r[k] == fs[k]);
                } else if k < i + parts.len() {
                    assert(r[k] == parts[k - i]);
                } else {
                    assert(r[k] == fs[k - parts.len() + 1]);
                }
            }
        },
        None => {},
    }
}

/// A replacement by `g`, or with `None` a removal, of the characters of `span`.
pub open spec fn text_edit(fs: Seq<FragmentView>, span: Span, g: Option<FragmentView>) -> Seq<FragmentView> {
    match g {
        Some(g) => text_replace(fs, span, g),
        None => text_remove(fs, span),
    }
}

pub open spec fn bounded(fs: Seq<FragmentView>, n: nat) -> bool {
    forall|i: int| 0 <= i < fs.len() ==> #[trigger] frag_len(fs[i]) <= n
}

/// Whether every fragment that is not a styled run starts at `b` or later.
pub open spec fn others_from(fs: Seq<FragmentView>, b: nat) -> bool {
    forall|k: int| 0 <= k < fs.len() && !(#[trigger] fs[k] is Stylised) ==> prefix_len(fs, k) >= b
}

pub proof fn lemma_splice_prefix(fs: Seq<FragmentView>, idx: int, parts: Seq<FragmentView>, k: int)
    requires
        0 <= idx < fs.len(),
        0 <= k <= idx + parts.len(),
    ensures
        k <= idx ==> prefix_len(splice(fs, idx, parts), k) == prefix_len(fs, k),
        k >= idx ==> prefix_len(splice(fs, idx, parts), k) == prefix_len(fs, idx) + prefix_len(parts, k - idx),
{
    let a = fs.take(idx) + parts;
    assert(splice(fs, idx, parts) == a + fs.skip(idx + 1));
    lemma_prefix_concat(a, fs.skip(idx + 1), k);
    lemma_prefix_concat(fs.take(idx), parts, k);
    if k <= idx {
        assert(fs =~= fs.take(idx) + fs.skip(idx));
        lemma_prefix_concat(fs.take(idx), fs.skip(idx), k);
    } else {
        assert(fs =~= fs.take(idx) + fs.skip(idx));
        lemma_prefix_concat(fs.take(idx), fs.skip(idx), idx);
    }
}

proof fn lemma_splice_bounded(fs: Seq<FragmentView>, idx: int, parts: Seq<FragmentView>, n: nat)
    requires
        0 <= idx < fs.len(),
        bounded(fs, n),
        bounded(parts, n),
    ensures
        bounded(splice(fs, idx, parts), n),
{
    let r = splice(fs, idx, parts);
    assert forall|k: int| 0 <= k < r.len() implies #[trigger] frag_len(r[k]) <= n by {
        if k < idx {
            assert(r[k] == fs[k]);
        } else if k < idx + parts.len() {
            assert(r[k] == parts[k - idx]);
        } else {
            assert(r[k] == fs[k - parts.len() + 1]);
        }
    }
}

proof fn lemma_splice_others(fs: Seq<FragmentView>, idx: int, parts: Seq<FragmentView>, b: nat, o: nat)
    requires
        0 <= idx < fs.len(),
        others_from(fs, b),
        prefix_len(fs, idx) <= o < b,
        parts.len() >= 1,
        parts[0] is Stylised,
        prefix_len(fs, idx) + frag_len(parts[0]) == o,
    ensures
        others_from(splice(fs, idx, parts), o),
{
    let r = splice(fs, idx, parts);
    assert forall|k: int| 0 <= k < r.len() && !(#[trigger] r[k] is Stylised) implies prefix_len(r, k) >= o by {
        if k < idx {
            assert(r[k] == fs[k]);
            lemma_splice_prefix(fs, idx, parts, k);
            lemma_prefix_mono(fs, k, idx);
        } else if k == idx {
            assert(r[k] == parts[0]);
        } else {
            lemma_prefix_mono(r, idx + 1, k);
            lemma_splice_prefix(fs, idx, parts, idx + 1);
            reveal_with_fuel(prefix_len, 2);
        }
    }
}

pub proof fn lemma_text_edit_keeps(fs: Seq<FragmentView>, span: Span, g: Option<FragmentView>, b: nat, n: nat)
    requires
        bounded(fs, n),
        others_from(fs, b),
        span.offset < b,
        g matches Some(gv) ==> frag_len(gv) <= n,
    ensures
        located_stylised(fs, span.offset as nat),
        bounded(text_edit(fs, span, g), n),
        others_from(text_edit(fs, span, g), span.offset as nat),
{
    let o = span.offset as nat;
    lemma_locate(fs, o);
    match locate(fs, o) {
        Some((idx, lo)) => {
            if !(fs[idx] is Stylised) {
                assert(prefix_len(fs, idx) >= b);
            }
            let sp = Span { offset: lo as usize, length: span.length };
            let parts = match g {
                Some(gv) => replace_spec(fs[idx], sp, gv),
                None => remove_spec(fs[idx], sp),
            };
            let r = text_edit(fs, span, g);
            assert(r == splice(fs, idx, parts));
            assert(bounded(parts, n));
            lemma_splice_bounded(fs, idx, parts, n);
            let fits = sp.offset + sp.length <= frag_len(fs[idx]);
            if !fits {
                assert(r =~= fs);
            } else {
                lemma_splice_others(fs, idx, parts, b, o);
            }
        },
        None => {},
    }
}

/// The characters of a fragment's styled run; none for a link or an image.
pub open spec fn run_text(f: FragmentView) -> Seq<char> {
    match f {
        FragmentView::Stylised(_, s) => s,
        _ => seq![],
    }
}

/// The characters of all styled runs, modifier runs included, in order.
pub open spec fn text_of(fs: Seq<FragmentView>) -> Seq<char>
    decreases fs.len(),
{
    if fs.len() == 0 {
        seq![]
    } else {
        text_of(fs.drop_last()) + run_text(fs.last())
    }
}

pub proof fn lemma_text_of_concat(a: Seq<FragmentView>, b: Seq<FragmentView>)
    ensures
        text_of(a + b) == text_of(a) + text_of(b),
    decreases b.len(),
{
    if b.len() == 0 {
        assert(a + b =~= a);
        assert(text_of(a) + text_of(b) =~= text_of(a));
    } else {
        assert((a + b).drop_last() =~= a + b.drop_last());
        lemma_text_of_concat(a, b.drop_last());
        assert(text_of(a) + text_of(b.drop_last()) + run_text(b.last()) =~= text_of(a) + (text_of(
            b.drop_last(),
        ) + run_text(b.last())));
    }
}

pub proof fn lemma_text_of_single(f: FragmentView)
    ensures
        text_of(seq![f]) == run_text(f),
{
    let e = Seq::<FragmentView>::empty();
    assert(seq![f].drop_last() =~= e);
    assert(text_of(e) == Seq::<char>::empty());
    assert(Seq::<char>::empty() + run_text(f) =~= run_text(f));
}

proof fn lemma_text_of_piece(st: Style, s: Seq<char>)
    ensures
        text_of(piece(st, s)) == s,
{
    if s.len() == 0 {
        assert(s =~= seq![]);
    } else {
        lemma_text_of_single(FragmentView::Stylised(st, s));
    }
}

/// Styling a span keeps every character of the text, in order.
pub proof fn lemma_text_style_text(fs: Seq<FragmentView>, p: nat, span: Span, st: Style)
    ensures
        text_of(text_style(fs, p, span, st)) == text_of(fs),
{
    match locate(fs, span.offset as nat) {
        Some((i, lo)) => {
            lemma_locate(fs, span.offset as nat);
            let f = fs[i];
            let sp = Span { offset: lo as usize, length: span.length };
            let parts = style_in_spec(f, sp, p, st);
            assert(fs.drop_last().len() == fs.len() - 1);
            lemma_text_of_single(f);
            match f {
                FragmentView::Stylised(init, s) => {
                    if !(sp.length < p || sp.offset + sp.length + p > s.len()) {
                        let o = sp.offset as int;
                        let l = sp.length as int;
                        let s0 = s.subrange(0, o);
                        let s1 = s.subrange(o, o + p);
                        let s2 = s.subrange(o + p, o + l);
                        let s3 = s.subrange(o + l, o + l + p);
                        let s4 = s.subrange(o + l + p, s.len() as int);
                        let part0 = piece(init, s0);
                        let part1 = piece(Style::spec_modifier(), s1);
                        let part2 = piece(init.spec_union(st), s2);
                        let part3 = piece(Style::spec_modifier(), s3);
                        let part4 = piece(init, s4);
                        lemma_text_of_piece(init, s0);
                        lemma_text_of_piece(Style::spec_modifier(), s1);
                        lemma_text_of_piece(init.spec_union(st), s2);
                        lemma_text_of_piece(Style::spec_modifier(), s3);
                        lemma_text_of_piece(init, s4);
                        lemma_text_of_concat(part0, part1);
                        lemma_text_of_concat(part0 + part1, part2);
                        lemma_text_of_concat(part0 + part1 + part2, part3);
                        lemma_text_of_concat(part0 + part1 + part2 + part3, part4);
                        assert(s0 + s1 + s2 + s3 + s4 =~= s);
                    }
                },
                _ => {},
            }
            assert(text_of(parts) == text_of(seq![f]));
            assert(fs =~= fs.take(i) + seq![f] + fs.skip(i + 1));
            lemma_text_of_concat(fs.take(i), seq![f]);
            lemma_text_of_concat(fs.take(i) + seq![f], fs.skip(i + 1));
            lemma_text_of_concat(fs.take(i), parts);
            lemma_text_of_concat(fs.take(i) + parts, fs.skip(i + 1));
        },
        None => {},
    }
}

/// Whether the code span of every code block lies within its buffer.
pub open spec fn code_spans_fit(nodes: Seq<NodeView>) -> bool {
    forall|i: int|
        0 <= i < nodes.len() ==> (#[trigger] nodes[i] matches NodeView::CodeBlock(buf, _, code) ==> code.fits(
            buf.len(),
        ))
}

proof fn lemma_compact_prefix_fits(xs: Seq<NodeView>, n: int)
    requires
        0 <= n <= xs.len(),
        code_spans_fit(xs),
    ensures
        code_spans_fit(compact_prefix(xs, n).out),
    decreases n,
{
    if n > 0 {
        lemma_compact_prefix_fits(xs, n - 1);
        let st = compact_prefix(xs, n - 1);
        let st2 = compact_prefix(xs, n);
        assert(st2 == compact_step(st, xs[n - 1]));
        assert forall|i: int| 0 <= i < st2.out.len() implies (#[trigger] st2.out[i] matches NodeView::CodeBlock(
            buf,
            _,
            code,
        ) ==> code.fits(buf.len())) by {
            if i < st.out.len() {
                assert(st2.out[i] == st.out[i]);
            }
        }
    }
}

/// Compaction keeps every code block as it is.
pub proof fn lemma_compact_keeps_code_fit(xs: Seq<NodeView>)
    requires
        code_spans_fit(xs),
    ensures
        code_spans_fit(compact(xs)),
{
    lemma_compact_prefix_fits(xs, xs.len() as int);
    let st = compact_prefix(xs, xs.len() as int);
    let r = compact(xs);
    assert forall|i: int| 0 <= i < r.len() implies (#[trigger] r[i] matches NodeView::CodeBlock(buf, _, code)
        ==> code.fits(buf.len())) by {
        if i < st.out.len() {
            assert(r[i] == st.out[i]);
        }
    }
}

/// The text of a paragraph; nothing for another block.
pub open spec fn para_text(n: NodeView) -> Seq<FragmentView> {
    match n {
        NodeView::Paragraphe(t) => t,
        _ => Seq::empty(),
    }
}

/// The texts of a run of paragraphs, joined by line-break fragments.
pub open spec fn merged(ps: Seq<NodeView>) -> Seq<FragmentView>
    decreases ps.len(),
{
    if ps.len() == 0 {
        Seq::empty()
    } else if ps.len() == 1 {
        para_text(ps[0])
    } else {
        merged(ps.drop_last()) + seq![newline_frag()] + para_text(ps.last())
    }
}

/// Where the run of paragraphs that ends just before index `i` starts.
pub open spec fn run_start(xs: Seq<NodeView>, i: int) -> int
    decreases i,
{
    if 0 < i <= xs.len() && xs[i - 1] is Paragraphe {
        run_start(xs, i - 1)
    } else {
        i
    }
}

pub proof fn lemma_run_start(xs: Seq<NodeView>, i: int)
    requires
        0 <= i <= xs.len(),
    ensures
        0 <= run_start(xs, i) <= i,
        forall|j: int| run_start(xs, i) <= j < i ==> #[trigger] xs[j] is Paragraphe,
        run_start(xs, i) == 0 || !(xs[run_start(xs, i) - 1] is Paragraphe),
    decreases i,
{
    if 0 < i && xs[i - 1] is Paragraphe {
        lemma_run_start(xs, i - 1);
    }
}

proof fn lemma_run_start_take(xs: Seq<NodeView>, i: int, m: int)
    requires
        0 <= i <= m <= xs.len(),
    ensures
        run_start(xs.take(m), i) == run_start(xs, i),
    decreases i,
{
    if 0 < i && xs[i - 1] is Paragraphe {
        lemma_run_start_take(xs, i - 1, m);
    }
}

/// Compaction stated block by block, from the end: a maximal run of
/// paragraphs becomes one paragraph, its texts joined by line-break
/// fragments; a blank line right after a blank line or a heading of the
/// input is dropped; every other block is kept; the order is kept.
pub open spec fn compact_direct(xs: Seq<NodeView>) -> Seq<NodeView>
    decreases xs.len(),
{
    if xs.len() == 0 {
        Seq::empty()
    } else {
        let n = xs.len() - 1;
        let x = xs[n];
        if x is Paragraphe {
            let s = run_start(xs, n);
            proof {
                lemma_run_start(xs, n);
            }
            compact_direct(xs.take(s)).push(NodeView::Paragraphe(merged(xs.subrange(s, n + 1))))
        } else if x is LineBreak && n > 0 && (xs[n - 1] is LineBreak || xs[n - 1] is Header) {
            compact_direct(xs.take(n))
        } else {
            compact_direct(xs.take(n)).push(x)
        }
    }
}

proof fn lemma_compact_prefix_direct(xs: Seq<NodeView>, n: int)
    requires
        0 <= n <= xs.len(),
    ensures
        ({
            let st = compact_prefix(xs, n);
            if n > 0 && xs[n - 1] is Paragraphe {
                let s = run_start(xs, n - 1);
                &&& st.out == compact_direct(xs.take(s))
                &&& st.para == Some(merged(xs.subrange(s, n)))
                &&& !st.has_br
            } else {
                &&& st.out == compact_direct(xs.take(n))
                &&& st.para is None
                &&& st.has_br == (n > 0 && (xs[n - 1] is LineBreak || xs[n - 1] is Header))
            }
        }),
    decreases n,
{
    if n > 0 {
        lemma_compact_prefix_direct(xs, n - 1);
        let st = compact_prefix(xs, n - 1);
        let st2 = compact_prefix(xs, n);
        let x = xs[n - 1];
        assert(st2 == compact_step(st, x));
        let prev_para = n > 1 && xs[n - 2] is Paragraphe;
        let tn = xs.take(n);
        let tp = xs.take(n - 1);
        assert(tn.take(n - 1) =~= tp);
        assert(tn[n - 1] == x);
        if x is Paragraphe {
            if prev_para {
                let s = run_start(xs, n - 2);
                assert(run_start(xs, n - 1) == s);
                lemma_run_start(xs, n - 2);
                let r = xs.subrange(s, n);
                assert(r.len() >= 2);
                assert(r.drop_last() =~= xs.subrange(s, n - 1));
                assert(r.last() == x);
                assert(merged(r) == merged(xs.subrange(s, n - 1)) + seq![newline_frag()] + para_text(x));
                assert(st2.para == Some(merged(r)));
                assert(st2.out == compact_direct(xs.take(s)));
            } else {
                assert(run_start(xs, n - 1) == n - 1);
                let r = xs.subrange(n - 1, n);
                assert(r =~= seq![x]);
                assert(merged(r) == para_text(x));
                assert(st2.para == Some(merged(r)));
                assert(st2.out == compact_direct(xs.take(n - 1)));
            }
        } else {
            let out1 = if st.para is Some {
                st.out.push(NodeView::Paragraphe(st.para->0))
            } else {
                st.out
            };
            if prev_para {
                let s = run_start(xs, n - 2);
                lemma_run_start(xs, n - 2);
                lemma_run_start_take(xs, n - 2, n - 1);
                assert(tp.take(s) =~= xs.take(s));
                assert(tp.subrange(s, n - 1) =~= xs.subrange(s, n - 1));
                assert(tp[n - 2] == xs[n - 2]);
                assert(tp.len() == n - 1);
                assert(compact_direct(tp) == compact_direct(tp.take(s)).push(
                    NodeView::Paragraphe(merged(tp.subrange(s, n - 1))),
                ));
            }
            assert(out1 == compact_direct(tp));
            if n > 1 {
                assert(tn[n - 2] == xs[n - 2]);
            }
            assert(tn.len() == n);
            if x is LineBreak && n > 1 && (xs[n - 2] is LineBreak || xs[n - 2] is Header) {
                assert(compact_direct(tn) == compact_direct(tp));
            } else {
                assert(compact_direct(tn) == compact_direct(tp).push(x));
            }
        }
    }
}

/// Compaction is `compact_direct`: runs of paragraphs merged, a blank line
/// after a blank line or a heading dropped, everything else kept in order.
pub proof fn lemma_compact_direct(xs: Seq<NodeView>)
    ensures
        compact(xs) == compact_direct(xs),
{
    let n = xs.len() as int;
    lemma_compact_prefix_direct(xs, n);
    assert(xs.take(n) =~= xs);
    if n > 0 && xs[n - 1] is Paragraphe {
        lemma_run_start(xs, n - 1);
        assert(xs.subrange(run_start(xs, n - 1), n) =~= xs.subrange(run_start(xs, n - 1), n - 1 + 1));
    }
}

} // verus!
