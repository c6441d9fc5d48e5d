//! Section slicing: turns raw corpus Markdown into [`Section`]s.
//!
//! The scanner is line-based and CommonMark-flavoured where it matters for
//! search:
//!
//! - fenced code blocks (backtick or tilde fences) never emit headings,
//!   whatever their content (a `# comment` inside a Python block stays body
//!   text);
//! - a closing fence must use the same character and be at least as long as
//!   the opening one;
//! - headings may be indented by 0-3 spaces; deeper indentation is code and
//!   never a heading;
//! - Setext underlines (`Title` followed by `====` or `----`) start a section,
//!   but a `---` that follows a blank line stays a thematic break;
//! - `####` and deeper do not split sections;
//! - the text before the first heading is indexed as a preamble section
//!   (level 0) instead of being dropped;
//! - sections whose body is empty (a bare heading like `## Options`) stay in
//!   the index with `has_body = false`.
//!
//! The scanner is specified as a state machine over lines ([`step`],
//! [`scan`]); [`parse_sections`] is proved to compute [`spec_parse`].

use std::ops::Range;
use vstd::prelude::*;

use crate::text::{
    all_whitespace, all_ws, byte_len, byte_pos, byte_slice, char_width, chars_of, is_ws,
    lemma_byte_pos_mono, lemma_byte_pos_step, lemma_byte_pos_zero, lemma_byte_slice, leading_run,
    run_len, string_of, trim, trim_end, trim_end_to, trim_range, valid_byte_range,
};

verus! {

/// One searchable slice of the corpus.
#[derive(Debug)]
pub struct Section {
    /// Byte range of the section body in the corpus (heading line excluded).
    pub range: Range<usize>,
    /// Heading level: 0 for the preamble (text before the first heading),
    /// 1-3 otherwise.
    pub level: u8,
    /// Own heading text without the leading `#`s (empty for the preamble).
    pub heading: String,
    /// Titles of the enclosing headings, outermost first (page H1, then H2).
    pub breadcrumb: Vec<String>,
    /// False for a bare heading (no body until the next heading).
    pub has_body: bool,
}

impl Clone for Section {
    fn clone(&self) -> (r: Self)
        ensures
            r.range == self.range,
            r.level == self.level,
            r.heading == self.heading,
            r.breadcrumb@ == self.breadcrumb@,
            r.has_body == self.has_body,
    {
        let breadcrumb = self.breadcrumb.clone();
        proof {
            assert forall|i: int| 0 <= i < breadcrumb@.len() implies breadcrumb@[i]
                == self.breadcrumb@[i] by {
                assert(cloned::<String>(self.breadcrumb[i], breadcrumb[i]));
            }
            assert(breadcrumb@ =~= self.breadcrumb@);
        }
        Section {
            range: Range { start: self.range.start, end: self.range.end },
            level: self.level,
            heading: self.heading.clone(),
            breadcrumb,
            has_body: self.has_body,
        }
    }
}

/// An open fenced code block: its fence character and run length.
#[derive(Debug, Clone, Copy, PartialEq, Eq)]
pub struct Fence {
    pub ch: char,
    pub len: usize,
}

// ---------------------------------------------------------------------------
// Line classification (specifications)
// ---------------------------------------------------------------------------

/// Offset of the line content after up to 3 leading spaces; `None` when the
/// line is indented by 4 spaces or more.
pub open spec fn strip3(line: Seq<char>) -> Option<int> {
    let n = run_len(line, ' ');
    if n < 4 {
        Some(n as int)
    } else {
        None
    }
}

/// The fence a line opens, if any.
pub open spec fn spec_fence_opener(line: Seq<char>) -> Option<Fence> {
    match strip3(line) {
        None => None,
        Some(k) => {
            let rest = line.skip(k);
            if rest.len() == 0 {
                None
            } else {
                let ch = rest[0];
                let n = run_len(rest, ch);
                if (ch != '`' && ch != '~') || n < 3 || (ch == '`' && rest.skip(n as int).contains(
                    '`',
                )) {
                    None
                } else {
                    Some(Fence { ch, len: n as usize })
                }
            }
        },
    }
}

/// Whether a line closes the open fence `f`.
pub open spec fn spec_fence_closer(line: Seq<char>, f: Fence) -> bool {
    match strip3(line) {
        None => false,
        Some(k) => {
            let rest = line.skip(k);
            let run = run_len(rest, f.ch);
            run >= f.len && all_ws(rest.skip(run as int))
        },
    }
}

/// ATX heading `(level, text)` of a line, levels 1-3 only.
pub open spec fn spec_atx(line: Seq<char>) -> Option<(u8, Seq<char>)> {
    match strip3(line) {
        None => None,
        Some(k) => {
            let rest = line.skip(k);
            let lvl = run_len(rest, '#');
            if lvl == 0 || lvl > 3 {
                None
            } else {
                let text = trim(rest.skip(lvl as int));
                if text.len() > 0 && rest[lvl as int] != ' ' && rest[lvl as int] != '\t' {
                    None
                } else {
                    Some((lvl as u8, text))
                }
            }
        },
    }
}

/// Setext underline level (1 for `=`, 2 for `-`) of a bare underline line.
pub open spec fn spec_setext(line: Seq<char>) -> Option<u8> {
    match strip3(line) {
        None => None,
        Some(k) => {
            let run = trim_end(line.skip(k));
            if run.len() == 0 || (run[0] != '=' && run[0] != '-') {
                None
            } else if forall|i: int| 0 <= i < run.len() ==> #[trigger] run[i] == run[0] {
                Some(
                    if run[0] == '=' {
                        1u8
                    } else {
                        2u8
                    },
                )
            } else {
                None
            }
        },
    }
}

// ---------------------------------------------------------------------------
// Line classification (executable)
// ---------------------------------------------------------------------------

/// Offset after up to 3 leading spaces, or `None` when indented 4+ spaces
/// (an indented code block line can never be a heading or a fence).
pub(crate) fn strip_up_to_3_spaces(line: &[char]) -> (r: Option<usize>)
    ensures
        match strip3(line@) {
            None => r is None,
            Some(k) => r == Some(k as usize) && k <= line@.len(),
        },
{
    let n = leading_run(line, 0, ' ');
    proof {
        assert(line@.skip(0) =~= line@);
    }
    if n < 4 {
        Some(n)
    } else {
        None
    }
}

/// If `line` opens a fenced code block, its fence character and length.
#[verifier::loop_isolation(false)]
pub(crate) fn fence_opener(line: &[char]) -> (r: Option<Fence>)
    ensures
        r == spec_fence_opener(line@),
{
    let k = match strip_up_to_3_spaces(line) {
        None => return None,
        Some(k) => k,
    };
    if k >= line.len() {
        return None;
    }
    let ch = line[k];
    if ch != '`' && ch != '~' {
        return None;
    }
    let n = leading_run(line, k, ch);
    if n < 3 {
        return None;
    }
    let ghost rest = line@.skip(k as int);
    assert(rest[0] == ch);
    // CommonMark: the info string of a backtick fence must not contain backticks.
    if ch == '`' {
        let mut i = k + n;
        while i < line.len()
            invariant
                k + n <= i <= line@.len(),
                rest == line@.skip(k as int),
                forall|j: int| k + n <= j < i ==> line@[j] != '`',
            decreases line@.len() - i,
        {
            if line[i] == '`' {
                assert(rest.skip(n as int)[i - k - n] == '`');
                assert(rest.skip(n as int).contains('`'));
                return None;
            }
            i = i + 1;
        }
        assert(!rest.skip(n as int).contains('`')) by {
            assert forall|j: int| 0 <= j < rest.skip(n as int).len() implies rest.skip(
                n as int,
            )[j] != '`' by {
                assert(rest.skip(n as int)[j] == line@[k + n + j]);
            }
        }
    }
    Some(Fence { ch, len: n })
}

/// True if `line` closes a fence opened with `fence`.
pub(crate) fn fence_closer(line: &[char], fence: Fence) -> (b: bool)
    ensures
        b == spec_fence_closer(line@, fence),
{
    let k = match strip_up_to_3_spaces(line) {
        None => return false,
        Some(k) => k,
    };
    let len = line.len();
    assert(k <= line@.len());
    let run = leading_run(line, k, fence.ch);
    assert(k + run <= line@.len());
    let ghost rest = line@.skip(k as int);
    assert(rest.skip(run as int) =~= line@.subrange(k + run, line@.len() as int));
    run >= fence.len && all_whitespace(line, k + run, line.len())
}

/// ATX heading `(level, text bounds)` of `line`, levels 1-3 only.
pub(crate) fn atx_heading(line: &[char]) -> (r: Option<(u8, usize, usize)>)
    ensures
        match spec_atx(line@) {
            None => r is None,
            Some((lvl, text)) => r matches Some((l, a, b)) && l == lvl && a <= b <= line@.len()
                && line@.subrange(a as int, b as int) == text,
        },
{
    let k = match strip_up_to_3_spaces(line) {
        None => return None,
        Some(k) => k,
    };
    let len = line.len();
    let ghost rest = line@.skip(k as int);
    assert(rest.skip(0) =~= rest);
    // Count the hashes, stopping as soon as there are too many for a heading.
    let mut level: usize = 0;
    while k + level < len && line[k + level] == '#' && level < 4
        invariant
            len == line@.len(),
            k <= line@.len(),
            rest == line@.skip(k as int),
            k + level <= line@.len(),
            level <= 4,
            run_len(rest, '#') == level + run_len(rest.skip(level as int), '#'),
        decreases 4 - level,
    {
        assert(rest.skip(level as int).drop_first() =~= rest.skip(level + 1));
        level = level + 1;
    }
    if level == 4 {
        proof {
            assert(run_len(rest, '#') >= 4);
        }
        return None;
    }
    proof {
        assert(rest.skip(level as int).len() == 0 || rest.skip(level as int)[0] != '#');
        assert(run_len(rest, '#') == level);
    }
    if level == 0 {
        return None;
    }
    let (a, b) = trim_range(line, k + level, line.len());
    assert(rest.skip(level as int) =~= line@.subrange(k + level, line@.len() as int));
    if a < b {
        let c = line[k + level];
        assert(rest[level as int] == c);
        if c != ' ' && c != '\t' {
            return None;
        }
    }
    Some((level as u8, a, b))
}

/// Setext underline level (1 for `=`, 2 for `-`) if `line` is a bare
/// underline run; combined with a pending paragraph, it closes a heading.
#[verifier::loop_isolation(false)]
pub(crate) fn setext_underline(line: &[char]) -> (r: Option<u8>)
    ensures
        r == spec_setext(line@),
{
    let k = match strip_up_to_3_spaces(line) {
        None => return None,
        Some(k) => k,
    };
    let b = trim_end_to(line, k, line.len());
    let ghost run = line@.subrange(k as int, b as int);
    assert(line@.skip(k as int) =~= line@.subrange(k as int, line@.len() as int));
    if b == k {
        return None;
    }
    let ch = line[k];
    assert(run[0] == ch);
    if ch != '=' && ch != '-' {
        assert(run == trim_end(line@.skip(k as int)));
        return None;
    }
    let mut i = k;
    while i < b
        invariant
            k <= i <= b <= line@.len(),
            run == line@.subrange(k as int, b as int),
            run == trim_end(line@.skip(k as int)),
            run[0] == ch,
            forall|j: int| 0 <= j < i - k ==> run[j] == ch,
        decreases b - i,
    {
        if line[i] != ch {
            assert(run[i - k] != run[0]);
            return None;
        }
        i = i + 1;
    }
    Some(
        if ch == '=' {
            1
        } else {
            2
        },
    )
}

// ---------------------------------------------------------------------------
// The scanner (specification)
// ---------------------------------------------------------------------------

/// A section as the scanner emits it; positions are character indices.
pub struct SectionSpec {
    pub start: int,
    pub end: int,
    pub level: u8,
    pub heading: Seq<char>,
    pub breadcrumb: Seq<Seq<char>>,
    pub has_body: bool,
}

/// Scanner state between two lines.
pub struct ScanState {
    /// The open fenced code block, if any.
    pub fence: Option<Fence>,
    /// Open headings, current section on top: (level, title).
    pub stack: Seq<(u8, Seq<char>)>,
    /// Where the current section body starts.
    pub body_start: int,
    /// Current section level (0 = preamble).
    pub level: u8,
    pub heading: Seq<char>,
    pub breadcrumb: Seq<Seq<char>>,
    /// Start of the pending paragraph, kept to detect Setext underlines.
    pub para_start: Option<int>,
    pub para_text: Seq<char>,
    /// Sections emitted so far.
    pub sections: Seq<SectionSpec>,
}

pub open spec fn init_state() -> ScanState {
    ScanState {
        fence: None,
        stack: Seq::empty(),
        body_start: 0,
        level: 0,
        heading: Seq::empty(),
        breadcrumb: Seq::empty(),
        para_start: None,
        para_text: Seq::empty(),
        sections: Seq::empty(),
    }
}

/// End (exclusive, past the `\n`) of the line starting at `p`.
pub open spec fn line_end(c: Seq<char>, p: int) -> int
    decreases c.len() - p,
{
    if p < 0 || p >= c.len() {
        c.len() as int
    } else if c[p] == '\n' {
        p + 1
    } else {
        line_end(c, p + 1)
    }
}

pub proof fn lemma_line_end(c: Seq<char>, p: int)
    requires
        0 <= p < c.len(),
    ensures
        p < line_end(c, p) <= c.len(),
        forall|j: int| p <= j < line_end(c, p) - 1 ==> c[j] != '\n',
        line_end(c, p) < c.len() ==> c[line_end(c, p) - 1] == '\n',
    decreases c.len() - p,
{
    if c[p] != '\n' {
        if p + 1 < c.len() {
            lemma_line_end(c, p + 1);
            assert forall|j: int| p <= j < line_end(c, p) - 1 implies c[j] != '\n' by {
                if j > p {
                    assert(p + 1 <= j < line_end(c, p + 1) - 1);
                }
            }
        } else {
            assert(line_end(c, p + 1) == c.len());
        }
    }
}

/// The section emitted for the body `start..end`, unless it is an empty
/// preamble (no heading, no body).
pub open spec fn flush_spec(
    c: Seq<char>,
    sections: Seq<SectionSpec>,
    start: int,
    end: int,
    level: u8,
    heading: Seq<char>,
    breadcrumb: Seq<Seq<char>>,
) -> Seq<SectionSpec> {
    let has_body = !all_ws(c.subrange(start, end));
    if heading.len() == 0 && !has_body {
        sections
    } else {
        sections.push(SectionSpec { start, end, level, heading, breadcrumb, has_body })
    }
}

/// Pops the open headings at `level` or deeper.
pub open spec fn pop_shallower_spec(stack: Seq<(u8, Seq<char>)>, level: u8) -> Seq<(u8, Seq<char>)>
    decreases stack.len(),
{
    if stack.len() > 0 && stack.last().0 >= level {
        pop_shallower_spec(stack.drop_last(), level)
    } else {
        stack
    }
}

/// Titles of the enclosing headings (all but the top of the stack).
pub open spec fn ancestors(stack: Seq<(u8, Seq<char>)>) -> Seq<Seq<char>> {
    stack.drop_last().map_values(|p: (u8, Seq<char>)| p.1)
}

pub open spec fn reset(st: ScanState) -> ScanState {
    ScanState { para_start: None, para_text: Seq::empty(), ..st }
}

/// Close the current section at `flush_end` and open a heading `(level,
/// text)` whose body starts at `body_start`.
pub open spec fn open_section(
    c: Seq<char>,
    st: ScanState,
    flush_end: int,
    level: u8,
    text: Seq<char>,
    body_start: int,
) -> ScanState {
    let sections = flush_spec(
        c,
        st.sections,
        st.body_start,
        flush_end,
        st.level,
        st.heading,
        st.breadcrumb,
    );
    let stack = pop_shallower_spec(st.stack, level).push((level, text));
    ScanState {
        fence: st.fence,
        stack,
        body_start,
        level,
        heading: text,
        breadcrumb: ancestors(stack),
        para_start: None,
        para_text: Seq::empty(),
        sections,
    }
}

/// One scanner step over the line `c[ls..le]`.
pub open spec fn step(c: Seq<char>, st: ScanState, ls: int, le: int) -> ScanState {
    let line = c.subrange(ls, le);
    if let Some(f) = st.fence {
        // Inside code: never a heading, never a paragraph line.
        if spec_fence_closer(line, f) {
            ScanState { fence: None, ..st }
        } else {
            st
        }
    } else if let Some(f) = spec_fence_opener(line) {
        ScanState { fence: Some(f), ..reset(st) }
    } else if let Some((lvl, text)) = spec_atx(line) {
        open_section(c, st, ls, lvl, text, le)
    } else if let Some(lvl) = spec_setext(line) {
        if let Some(ps) = st.para_start {
            // The pending paragraph becomes the heading of a new section.
            open_section(c, st, ps, lvl, st.para_text, le)
        } else {
            // Bare thematic break: ordinary body line.
            reset(st)
        }
    } else if all_ws(line) {
        reset(st)
    } else {
        let indent = run_len(line, ' ');
        let text = trim(line);
        if st.para_start is None && indent < 4 {
            ScanState { para_start: Some(ls), para_text: text, ..st }
        } else if st.para_start is Some {
            ScanState { para_text: st.para_text + seq![' '] + text, ..st }
        } else {
            st
        }
    }
}

/// The scanner state after all lines from position `p` on.
pub open spec fn scan(c: Seq<char>, p: int, st: ScanState) -> ScanState
    decreases c.len() - p,
{
    if p < 0 || p >= c.len() {
        st
    } else {
        let e = line_end(c, p);
        proof {
            lemma_line_end(c, p);
        }
        scan(c, e, step(c, st, p, e))
    }
}

/// The sections of `c`, in document order.
pub open spec fn spec_parse(c: Seq<char>) -> Seq<SectionSpec> {
    let st = scan(c, 0, init_state());
    flush_spec(c, st.sections, st.body_start, c.len() as int, st.level, st.heading, st.breadcrumb)
}

// ---------------------------------------------------------------------------
// Laws of the scanner
// ---------------------------------------------------------------------------

/// A well-formed section of `c`: its body lies within the text, its level is
/// 0-3, `has_body` tells whether the body holds non-whitespace, and only a
/// preamble (level 0, at the start of the text, no heading, no ancestry) or
/// a heading section with fewer ancestors than its level is ever emitted.
pub open spec fn section_ok(c: Seq<char>, sp: SectionSpec) -> bool {
    &&& 0 <= sp.start <= sp.end <= c.len()
    &&& sp.level <= 3
    &&& sp.has_body == !all_ws(c.subrange(sp.start, sp.end))
    &&& (sp.heading.len() > 0 || sp.has_body)
    &&& (sp.level == 0 ==> sp.heading.len() == 0 && sp.breadcrumb.len() == 0 && sp.start == 0)
    &&& (sp.level > 0 ==> sp.breadcrumb.len() < sp.level)
}

/// Sections in document order: each well formed, bodies disjoint and
/// increasing, and only the first one may be a preamble.
pub open spec fn sections_well_formed(c: Seq<char>, sps: Seq<SectionSpec>) -> bool {
    &&& forall|i: int| 0 <= i < sps.len() ==> section_ok(c, #[trigger] sps[i])
    &&& forall|i: int, j: int|
        0 <= i < j < sps.len() ==> #[trigger] sps[i].end <= #[trigger] sps[j].start
    &&& forall|i: int| 0 < i < sps.len() ==> #[trigger] sps[i].level > 0
}

/// Open headings have strictly increasing levels within 1-3.
pub open spec fn stack_ok(stack: Seq<(u8, Seq<char>)>) -> bool {
    &&& forall|k: int| 0 <= k < stack.len() ==> k + 1 <= #[trigger] stack[k].0 <= 3
    &&& forall|i: int, j: int| 0 <= i < j < stack.len() ==> #[trigger] stack[i].0 < #[trigger] stack[j].0
}

/// What holds of the scanner state before the line starting at `p`.
pub open spec fn state_ok(c: Seq<char>, p: int, st: ScanState) -> bool {
    &&& 0 <= st.body_start <= p <= c.len()
    &&& (st.para_start matches Some(ps) ==> st.body_start <= ps <= p)
    &&& stack_ok(st.stack)
    &&& (st.stack.len() == 0 ==> {
        &&& st.level == 0
        &&& st.heading.len() == 0
        &&& st.breadcrumb.len() == 0
        &&& st.body_start == 0
        &&& st.sections.len() == 0
    })
    &&& (st.stack.len() > 0 ==> st.level == st.stack.last().0 && st.heading == st.stack.last().1
        && st.breadcrumb == ancestors(st.stack))
    &&& sections_well_formed(c, st.sections)
    &&& forall|i: int| 0 <= i < st.sections.len() ==> #[trigger] st.sections[i].end <= st.body_start
}

proof fn lemma_pop_shallower(stack: Seq<(u8, Seq<char>)>, level: u8)
    requires
        stack_ok(stack),
    ensures
        exists|k: int|
            0 <= k <= stack.len() && pop_shallower_spec(stack, level) == stack.take(k) && (k == 0
                || stack[k - 1].0 < level),
    decreases stack.len(),
{
    if stack.len() > 0 && stack.last().0 >= level {
        assert(stack_ok(stack.drop_last()));
        lemma_pop_shallower(stack.drop_last(), level);
        let k = choose|k: int|
            0 <= k <= stack.drop_last().len() && pop_shallower_spec(stack.drop_last(), level)
                == stack.drop_last().take(k) && (k == 0 || stack.drop_last()[k - 1].0 < level);
        assert(stack.drop_last().take(k) =~= stack.take(k));
    } else {
        assert(stack.take(stack.len() as int) =~= stack);
    }
}

/// Flushing a section keeps the emitted sections well formed.
proof fn lemma_flush_ok(c: Seq<char>, p: int, st: ScanState, flush_end: int)
    requires
        state_ok(c, p, st),
        st.body_start <= flush_end <= c.len(),
    ensures
        ({
            let secs = flush_spec(
                c,
                st.sections,
                st.body_start,
                flush_end,
                st.level,
                st.heading,
                st.breadcrumb,
            );
            &&& sections_well_formed(c, secs)
            &&& forall|i: int| 0 <= i < secs.len() ==> #[trigger] secs[i].end <= flush_end
        }),
{
    let secs = flush_spec(
        c,
        st.sections,
        st.body_start,
        flush_end,
        st.level,
        st.heading,
        st.breadcrumb,
    );
    if secs.len() > st.sections.len() {
        let sp = secs.last();
        if st.stack.len() > 0 {
            let k = st.stack.len() - 1;
            assert(st.stack[k].0 >= k + 1);
            assert(st.breadcrumb.len() == k);
        }
        assert(section_ok(c, sp));
        assert forall|i: int| 0 <= i < secs.len() implies section_ok(c, #[trigger] secs[i]) by {
            if i < st.sections.len() {
                assert(secs[i] == st.sections[i]);
            }
        }
        assert forall|i: int, j: int|
            0 <= i < j < secs.len() implies #[trigger] secs[i].end <= #[trigger] secs[j].start by {
            assert(secs[i] == st.sections[i]);
            if j < st.sections.len() {
                assert(secs[j] == st.sections[j]);
            }
        }
        assert forall|i: int| 0 < i < secs.len() implies #[trigger] secs[i].level > 0 by {
            if i < st.sections.len() {
                assert(secs[i] == st.sections[i]);
            }
        }
    }
}

proof fn lemma_open_section_ok(
    c: Seq<char>,
    p: int,
    st: ScanState,
    flush_end: int,
    level: u8,
    text: Seq<char>,
    e: int,
)
    requires
        state_ok(c, p, st),
        st.body_start <= flush_end <= p < e <= c.len(),
        1 <= level <= 3,
    ensures
        state_ok(c, e, open_section(c, st, flush_end, level, text, e)),
{
    let next = open_section(c, st, flush_end, level, text, e);
    lemma_flush_ok(c, p, st, flush_end);
    lemma_pop_shallower(st.stack, level);
    let popped = pop_shallower_spec(st.stack, level);
    let k = choose|k: int|
        0 <= k <= st.stack.len() && popped == st.stack.take(k) && (k == 0 || st.stack[k - 1].0
            < level);
    let stack = popped.push((level, text));
    assert forall|m: int| 0 <= m < stack.len() implies m + 1 <= #[trigger] stack[m].0 <= 3 by {
        if m < k {
            assert(stack[m] == st.stack[m]);
        } else {
            if k > 0 {
                assert(st.stack[k - 1].0 >= k);
            }
        }
    }
    assert forall|i: int, j: int|
        0 <= i < j < stack.len() implies #[trigger] stack[i].0 < #[trigger] stack[j].0 by {
        assert(stack[i] == st.stack[i]);
        if j < k {
            assert(stack[j] == st.stack[j]);
        } else {
            if i < k - 1 {
                assert(st.stack[i].0 < st.stack[k - 1].0);
            }
        }
    }
    assert(stack_ok(stack));
    assert(next.stack == stack);
}

proof fn lemma_step_ok(c: Seq<char>, p: int, st: ScanState)
    requires
        state_ok(c, p, st),
        0 <= p < c.len(),
    ensures
        state_ok(c, line_end(c, p), step(c, st, p, line_end(c, p))),
{
    lemma_line_end(c, p);
    let e = line_end(c, p);
    let line = c.subrange(p, e);
    if st.fence is None && spec_fence_opener(line) is None {
        if let Some((lvl, text)) = spec_atx(line) {
            lemma_open_section_ok(c, p, st, p, lvl, text, e);
        } else if let Some(lvl) = spec_setext(line) {
            if let Some(ps) = st.para_start {
                lemma_open_section_ok(c, p, st, ps, lvl, st.para_text, e);
            }
        }
    }
}

proof fn lemma_scan_ok(c: Seq<char>, p: int, st: ScanState)
    requires
        state_ok(c, p, st),
    ensures
        state_ok(c, c.len() as int, scan(c, p, st)),
    decreases c.len() - p,
{
    if p < c.len() {
        lemma_line_end(c, p);
        lemma_step_ok(c, p, st);
        lemma_scan_ok(c, line_end(c, p), step(c, st, p, line_end(c, p)));
    }
}

/// The sections of any text are well formed: in document order with
/// disjoint increasing bodies inside the text, levels 0-3, fewer ancestors
/// than their level, `has_body` exactly when the body holds non-whitespace,
/// never an empty preamble, and a preamble only as the first section,
/// starting at the beginning of the text.
pub proof fn lemma_sections_well_formed(c: Seq<char>)
    ensures
        sections_well_formed(c, spec_parse(c)),
{
    assert(state_ok(c, 0, init_state()));
    lemma_scan_ok(c, 0, init_state());
    let st = scan(c, 0, init_state());
    lemma_flush_ok(c, c.len() as int, st, c.len() as int);
}

/// Opening a heading at `level` pops exactly the open headings at `level` or
/// deeper from the top: what stays is a prefix of the stack that ends with a
/// shallower heading (or is empty), and every popped heading is at `level`
/// or deeper.
pub proof fn lemma_pop_shallower_prefix(stack: Seq<(u8, Seq<char>)>, level: u8)
    ensures
        pop_shallower_spec(stack, level).len() <= stack.len(),
        pop_shallower_spec(stack, level) == stack.take(pop_shallower_spec(stack, level).len() as int),
        pop_shallower_spec(stack, level).len() == 0 || pop_shallower_spec(stack, level).last().0
            < level,
        forall|i: int|
            pop_shallower_spec(stack, level).len() <= i < stack.len() ==> (#[trigger] stack[i]).0
                >= level,
    decreases stack.len(),
{
    if stack.len() > 0 && stack.last().0 >= level {
        let d = stack.drop_last();
        lemma_pop_shallower_prefix(d, level);
        let r = pop_shallower_spec(d, level);
        assert(d.take(r.len() as int) =~= stack.take(r.len() as int));
        assert forall|i: int| r.len() <= i < stack.len() implies (#[trigger] stack[i]).0 >= level by {
            if i < d.len() {
                assert(stack[i] == d[i]);
            }
        }
    } else {
        assert(stack.take(stack.len() as int) =~= stack);
    }
}

/// Indentation does not change whether a line opens a fence, nor which
/// fence it opens, as long as it is at most three spaces; four spaces or more
/// make an indented code line, which never opens a fence.
pub proof fn lemma_fence_opener_indent(line: Seq<char>)
    ensures
        run_len(line, ' ') <= 3 ==> spec_fence_opener(line) == spec_fence_opener(
            line.skip(run_len(line, ' ') as int),
        ),
        run_len(line, ' ') >= 4 ==> spec_fence_opener(line) is None,
{
    let k = run_len(line, ' ');
    crate::text::lemma_run_len_bound(line, ' ');
    if k <= 3 {
        let t = line.skip(k as int);
        if t.len() > 0 {
            assert(t[0] == line[k as int]);
        }
        assert(run_len(t, ' ') == 0);
        assert(t.skip(0) =~= t);
    }
}

/// A run of at least three backticks or tildes opens a fence of that
/// character and of the run's length, when what follows the run does not
/// continue it and, after backticks, holds no backtick.
pub proof fn lemma_fence_opener_run(ch: char, n: nat, rest: Seq<char>)
    requires
        ch == '`' || ch == '~',
        3 <= n <= usize::MAX,
        rest.len() == 0 || rest[0] != ch,
        ch == '`' ==> !rest.contains('`'),
    ensures
        spec_fence_opener(Seq::new(n, |i: int| ch) + rest) == Some(Fence { ch, len: n as usize }),
{
    let line = Seq::new(n, |i: int| ch) + rest;
    assert(line[0] == ch);
    crate::render::lemma_run_len_unique(line, ' ', 0);
    assert(line.skip(0) =~= line);
    if rest.len() > 0 {
        assert(line[n as int] == rest[0]);
    }
    crate::render::lemma_run_len_unique(line, ch, n as int);
    assert(line.skip(n as int) =~= rest);
}

/// Inside a fenced code block no line is a heading: while a fence is open, a
/// line either closes the fence or leaves the scanner exactly as it was, so
/// no section is emitted or opened there.
pub proof fn lemma_fence_is_inert(c: Seq<char>, st: ScanState, ls: int, le: int)
    requires
        st.fence is Some,
    ensures
        step(c, st, ls, le) == st || step(c, st, ls, le) == (ScanState { fence: None, ..st }),
        step(c, st, ls, le).sections == st.sections,
        step(c, st, ls, le).stack == st.stack,
        step(c, st, ls, le).body_start == st.body_start,
{
}

// ---------------------------------------------------------------------------
// Correspondence between executable values and the specification
// ---------------------------------------------------------------------------

pub open spec fn strings_view(v: Seq<String>) -> Seq<Seq<char>> {
    v.map_values(|s: String| s@)
}

pub open spec fn stack_view(v: Seq<(u8, String)>) -> Seq<(u8, Seq<char>)> {
    v.map_values(|p: (u8, String)| (p.0, p.1@))
}

/// `s` is the section `sp` of the text `c`, with byte offsets.
pub open spec fn section_agrees(c: Seq<char>, s: Section, sp: SectionSpec) -> bool {
    &&& s.range.start == byte_pos(c, sp.start)
    &&& s.range.end == byte_pos(c, sp.end)
    &&& s.level == sp.level
    &&& s.heading@ == sp.heading
    &&& strings_view(s.breadcrumb@) == sp.breadcrumb
    &&& s.has_body == sp.has_body
}

pub open spec fn sections_agree(c: Seq<char>, secs: Seq<Section>, sps: Seq<SectionSpec>) -> bool {
    &&& secs.len() == sps.len()
    &&& forall|i: int| 0 <= i < secs.len() ==> section_agrees(c, #[trigger] secs[i], sps[i])
}

// ---------------------------------------------------------------------------
// The scanner (executable)
// ---------------------------------------------------------------------------

fn clone_strings(v: &Vec<String>) -> (r: Vec<String>)
    ensures
        r@ == v@,
{
    let r = v.clone();
    proof {
        assert forall|i: int| 0 <= i < r@.len() implies r@[i] == v@[i] by {
            assert(cloned::<String>(v[i], r[i]));
        }
        assert(r@ =~= v@);
    }
    r
}

/// End of the line starting at `pos`, in characters and bytes.
fn find_line_end(cs: &[char], pos: usize, bpos: usize) -> (r: (usize, usize))
    requires
        pos < cs@.len(),
        bpos == byte_pos(cs@, pos as int),
        byte_pos(cs@, cs@.len() as int) <= usize::MAX,
    ensures
        r.0 == line_end(cs@, pos as int),
        pos < r.0 <= cs@.len(),
        r.1 == byte_pos(cs@, r.0 as int),
{
    let ghost c = cs@;
    let mut e = pos;
    let mut be = bpos;
    while e < cs.len() && cs[e] != '\n'
        invariant
            pos <= e <= c.len(),
            c == cs@,
            be == byte_pos(c, e as int),
            byte_pos(c, c.len() as int) <= usize::MAX,
            line_end(c, pos as int) == line_end(c, e as int),
        decreases c.len() - e,
    {
        proof {
            lemma_byte_pos_step(c, e as int);
            lemma_byte_pos_mono(c, e + 1, c.len() as int);
        }
        be = be + char_width(cs[e]);
        e = e + 1;
    }
    if e < cs.len() {
        proof {
            lemma_byte_pos_step(c, e as int);
            lemma_byte_pos_mono(c, e + 1, c.len() as int);
        }
        be = be + char_width(cs[e]);
        e = e + 1;
    }
    (e, be)
}

fn reset_paragraph(para_start: &mut Option<(usize, usize)>, para_text: &mut String)
    ensures
        *final(para_start) is None,
        final(para_text)@ == Seq::<char>::empty(),
{
    *para_start = None;
    *para_text = String::new();
}

fn pop_shallower(stack: &mut Vec<(u8, String)>, level: u8)
    ensures
        stack_view(final(stack)@) == pop_shallower_spec(stack_view(old(stack)@), level),
{
    while stack.len() > 0 && stack[stack.len() - 1].0 >= level
        invariant
            pop_shallower_spec(stack_view(stack@), level) == pop_shallower_spec(
                stack_view(old(stack)@),
                level,
            ),
        decreases stack@.len(),
    {
        let ghost before = stack@;
        stack.pop();
        proof {
            assert(stack_view(stack@) =~= stack_view(before).drop_last());
        }
    }
}

fn ancestor_titles(stack: &Vec<(u8, String)>) -> (r: Vec<String>)
    requires
        stack@.len() > 0,
    ensures
        strings_view(r@) == ancestors(stack_view(stack@)),
{
    let mut r: Vec<String> = Vec::new();
    let mut i: usize = 0;
    while i < stack.len() - 1
        invariant
            stack@.len() > 0,
            0 <= i <= stack@.len() - 1,
            strings_view(r@) == ancestors(stack_view(stack@)).take(i as int),
        decreases stack@.len() - 1 - i,
    {
        let t = stack[i].1.clone();
        let ghost before = r@;
        r.push(t);
        proof {
            let anc = ancestors(stack_view(stack@));
            assert(anc[i as int] == stack@[i as int].1@);
            assert(strings_view(r@) =~= strings_view(before).push(t@));
            assert(anc.take(i + 1) =~= anc.take(i as int).push(anc[i as int]));
        }
        i = i + 1;
    }
    proof {
        assert(ancestors(stack_view(stack@)).take(i as int) =~= ancestors(stack_view(stack@)));
    }
    r
}

/// Push the section for the body `cstart..cend` (bytes `bstart..bend`).
/// Bare headings (empty body) are kept in the index so a word that exists
/// only on such a heading remains findable; an empty preamble is dropped.
fn flush(
    sections: &mut Vec<Section>,
    Ghost(sps): Ghost<Seq<SectionSpec>>,
    content: &[char],
    cstart: usize,
    cend: usize,
    bstart: usize,
    bend: usize,
    level: u8,
    heading: &String,
    breadcrumb: &Vec<String>,
)
    requires
        cstart <= cend <= content@.len(),
        bstart == byte_pos(content@, cstart as int),
        bend == byte_pos(content@, cend as int),
        sections_agree(content@, old(sections)@, sps),
    ensures
        sections_agree(
            content@,
            final(sections)@,
            flush_spec(
                content@,
                sps,
                cstart as int,
                cend as int,
                level,
                heading@,
                strings_view(breadcrumb@),
            ),
        ),
{
    let has_body = !all_whitespace(content, cstart, cend);
    if heading.as_str().is_empty() && !has_body {
        return;
    }
    let ghost sp = SectionSpec {
        start: cstart as int,
        end: cend as int,
        level,
        heading: heading@,
        breadcrumb: strings_view(breadcrumb@),
        has_body,
    };
    sections.push(
        Section {
            range: Range { start: bstart, end: bend },
            level,
            heading: heading.clone(),
            breadcrumb: clone_strings(breadcrumb),
            has_body,
        },
    );
    proof {
        let new_sps = sps.push(sp);
        assert forall|i: int| 0 <= i < sections@.len() implies section_agrees(
            content@,
            #[trigger] sections@[i],
            new_sps[i],
        ) by {
            if i < sps.len() {
                assert(sections@[i] == old(sections)@[i]);
            }
        }
    }
}

/// Append `src[lo..hi]` to `s`.
fn push_chars(s: &mut String, src: &[char], lo: usize, hi: usize)
    requires
        lo <= hi <= src@.len(),
    ensures
        final(s)@ == old(s)@ + src@.subrange(lo as int, hi as int),
{
    let mut i = lo;
    while i < hi
        invariant
            lo <= i <= hi <= src@.len(),
            s@ == old(s)@ + src@.subrange(lo as int, i as int),
        decreases hi - i,
    {
        s.push(src[i]);
        proof {
            assert(old(s)@ + src@.subrange(lo as int, i + 1) =~= (old(s)@ + src@.subrange(
                lo as int,
                i as int,
            )).push(src@[i as int]));
        }
        i = i + 1;
    }
}

/// Split `content` into sections, in document order.
pub fn parse_sections(content: &str) -> (sections: Vec<Section>)
    ensures
        sections_agree(content@, sections@, spec_parse(content@)),
        sections_well_formed(content@, spec_parse(content@)),
        forall|i: int|
            0 <= i < sections@.len() ==> {
                &&& valid_byte_range(
                    content@,
                    (#[trigger] sections@[i]).range.start as int,
                    sections@[i].range.end as int,
                )
                &&& byte_slice(
                    content@,
                    sections@[i].range.start as int,
                    sections@[i].range.end as int,
                ) == content@.subrange(spec_parse(content@)[i].start, spec_parse(content@)[i].end)
            },
{
    proof {
        lemma_sections_well_formed(content@);
    }
    let total = byte_len(content);
    let cs = chars_of(content);
    let cs_s = cs.as_slice();
    let n = cs_s.len();
    let ghost c = content@;

    let mut sections: Vec<Section> = Vec::new();
    // Open headings, current section on top: (level, title).
    let mut stack: Vec<(u8, String)> = Vec::new();
    let mut fence: Option<Fence> = None;
    // Where the current section body starts (characters, bytes).
    let mut body_start: usize = 0;
    let mut body_start_b: usize = 0;
    let mut level: u8 = 0;
    let mut heading = String::new();
    let mut breadcrumb: Vec<String> = Vec::new();
    // Pending paragraph (start in characters and bytes), kept to detect
    // Setext underlines.
    let mut para_start: Option<(usize, usize)> = None;
    let mut para_text = String::new();

    let mut pos: usize = 0;
    let mut bpos: usize = 0;
    let ghost mut st = init_state();
    proof {
        lemma_byte_pos_zero(c);
        assert(sections_agree(c, sections@, st.sections));
        assert(stack_view(stack@) =~= st.stack);
        assert(strings_view(breadcrumb@) =~= st.breadcrumb);
    }

    while pos < n
        invariant
            cs_s@ == c,
            n == c.len(),
            total == byte_pos(c, c.len() as int),
            pos <= n,
            bpos == byte_pos(c, pos as int),
            scan(c, pos as int, st) == scan(c, 0, init_state()),
            st.body_start == body_start as int,
            body_start <= pos,
            body_start_b == byte_pos(c, body_start as int),
            fence == st.fence,
            stack_view(stack@) == st.stack,
            level == st.level,
            heading@ == st.heading,
            strings_view(breadcrumb@) == st.breadcrumb,
            match para_start {
                None => st.para_start is None,
                Some((ps, psb)) => {
                    &&& st.para_start == Some(ps as int)
                    &&& body_start <= ps <= pos
                    &&& psb == byte_pos(c, ps as int)
                },
            },
            para_text@ == st.para_text,
            sections_agree(c, sections@, st.sections),
        decreases n - pos,
    {
        proof {
            lemma_byte_pos_mono(c, pos as int, n as int);
        }
        let (le, ble) = find_line_end(cs_s, pos, bpos);
        let line = &cs_s[pos..le];
        let ghost next = step(c, st, pos as int, le as int);
        proof {
            assert(line@ == c.subrange(pos as int, le as int));
            assert(scan(c, pos as int, st) == scan(c, le as int, next));
        }
        match fence {
            Some(f) => {
                if fence_closer(line, f) {
                    fence = None;
                }
            },
            None => {
                match fence_opener(line) {
                    Some(f) => {
                        fence = Some(f);
                        reset_paragraph(&mut para_start, &mut para_text);
                    },
                    None => {
                        match atx_heading(line) {
                            Some((lvl, a, b)) => {
                                let text = string_of(line, a, b);
                                flush(
                                    &mut sections,
                                    Ghost(st.sections),
                                    cs_s,
                                    body_start,
                                    pos,
                                    body_start_b,
                                    bpos,
                                    level,
                                    &heading,
                                    &breadcrumb,
                                );
                                pop_shallower(&mut stack, lvl);
                                let ghost popped = stack@;
                                stack.push((lvl, text.clone()));
                                proof {
                                    assert(stack_view(stack@) =~= stack_view(popped).push(
                                        (lvl, text@),
                                    ));
                                }
                                level = lvl;
                                heading = text;
                                breadcrumb = ancestor_titles(&stack);
                                body_start = le;
                                body_start_b = ble;
                                reset_paragraph(&mut para_start, &mut para_text);
                            },
                            None => {
                                match setext_underline(line) {
                                    Some(lvl) => {
                                        match para_start {
                                            Some((ps, psb)) => {
                                                flush(
                                                    &mut sections,
                                                    Ghost(st.sections),
                                                    cs_s,
                                                    body_start,
                                                    ps,
                                                    body_start_b,
                                                    psb,
                                                    level,
                                                    &heading,
                                                    &breadcrumb,
                                                );
                                                pop_shallower(&mut stack, lvl);
                                                let text = para_text;
                                                para_text = String::new();
                                                para_start = None;
                                                let ghost popped = stack@;
                                                stack.push((lvl, text.clone()));
                                                proof {
                                                    assert(stack_view(stack@) =~= stack_view(
                                                        popped,
                                                    ).push((lvl, text@)));
                                                }
                                                level = lvl;
                                                heading = text;
                                                breadcrumb = ancestor_titles(&stack);
                                                body_start = le;
                                                body_start_b = ble;
                                            },
                                            None => {
                                                // Bare thematic break: ordinary body line.
                                                reset_paragraph(&mut para_start, &mut para_text);
                                            },
                                        }
                                    },
                                    None => {
                                        proof {
                                            assert(line@.subrange(0, line@.len() as int)
                                                =~= line@);
                                        }
                                        if all_whitespace(line, 0, line.len()) {
                                            reset_paragraph(&mut para_start, &mut para_text);
                                        } else {
                                            // Ordinary body line: extends or starts the pending
                                            // paragraph. Only lines indented by less than 4
                                            // spaces may START a paragraph.
                                            let indent = leading_run(line, 0, ' ');
                                            let (a, b) = trim_range(line, 0, line.len());
                                            proof {
                                                assert(line@.skip(0) =~= line@);
                                                assert(line@.subrange(0, line@.len() as int)
                                                    =~= line@);
                                            }
                                            if para_start.is_none() && indent < 4 {
                                                para_start = Some((pos, bpos));
                                                para_text = string_of(line, a, b);
                                            } else if para_start.is_some() {
                                                let ghost before = para_text@;
                                                para_text.push(' ');
                                                push_chars(&mut para_text, line, a, b);
                                                proof {
                                                    assert(para_text@ =~= before + seq![' ']
                                                        + trim(line@));
                                                }
                                            }
                                        }
                                    },
                                }
                            },
                        }
                    },
                }
            },
        }
        proof {
            st = next;
        }
        pos = le;
        bpos = ble;
    }
    flush(
        &mut sections,
        Ghost(st.sections),
        cs_s,
        body_start,
        n,
        body_start_b,
        total,
        level,
        &heading,
        &breadcrumb,
    );
    proof {
        let sps = spec_parse(c);
        assert forall|i: int| 0 <= i < sections@.len() implies {
            &&& valid_byte_range(
                c,
                (#[trigger] sections@[i]).range.start as int,
                sections@[i].range.end as int,
            )
            &&& byte_slice(c, sections@[i].range.start as int, sections@[i].range.end as int)
                == c.subrange(sps[i].start, sps[i].end)
        } by {
            assert(section_agrees(c, sections@[i], sps[i]));
            assert(section_ok(c, sps[i]));
            lemma_byte_slice(c, sps[i].start, sps[i].end);
        }
    }
    sections
}

} // verus!
