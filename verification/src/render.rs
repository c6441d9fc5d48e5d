//! Output building: greedy character budget, line-boundary truncation and
//! fence closing.
//!
//! The markers are kept in French for compatibility with existing `SKILL.md`
//! files and documented examples.

use vstd::prelude::*;
use vstd::string::{StrSliceExecFns, StringExecFns};

use crate::parse::{
    fence_closer, fence_opener, line_end, spec_fence_closer, spec_fence_opener, strings_view,
    Fence, Section,
};
use crate::text::{all_ws, run_len};
use crate::rank::join;
use crate::text::{byte_slice, chars_of, slice_str, valid_byte_range};
use crate::SearchError;

verus! {

// ---------------------------------------------------------------------------
// Truncation
// ---------------------------------------------------------------------------

/// The fence left open after scanning the lines of `s` from `p` on, starting
/// with `f` open.
pub open spec fn fence_scan(s: Seq<char>, p: int, f: Option<Fence>) -> Option<Fence>
    decreases s.len() - p,
{
    if p < 0 || p >= s.len() {
        f
    } else {
        let e = line_end(s, p);
        proof {
            crate::parse::lemma_line_end(s, p);
        }
        let line = s.subrange(p, e);
        let next = match f {
            Some(open) => if spec_fence_closer(line, open) {
                None
            } else {
                Some(open)
            },
            None => spec_fence_opener(line),
        };
        fence_scan(s, e, next)
    }
}

/// Index of the last `c` in `s`.
pub open spec fn rfind(s: Seq<char>, c: char) -> Option<int>
    decreases s.len(),
{
    if s.len() == 0 {
        None
    } else if s.last() == c {
        Some(s.len() - 1)
    } else {
        rfind(s.drop_last(), c)
    }
}

/// `n` copies of `c`.
pub open spec fn repeat(c: char, n: nat) -> Seq<char> {
    Seq::new(n, |i: int| c)
}

/// The first at most `budget` characters of `body`, cut back to the end of
/// the last complete line.
pub open spec fn cut_spec(body: Seq<char>, budget: int) -> Seq<char> {
    let head = body.take(budget);
    match rfind(head, '\n') {
        Some(pos) => body.take(pos + 1),
        None => head,
    }
}

/// `body` cut to at most `budget` characters, ending on a line boundary, with
/// a code fence left open by the cut closed again.
pub open spec fn truncate_spec(body: Seq<char>, budget: int) -> Seq<char> {
    if body.len() <= budget {
        body
    } else {
        let cut = cut_spec(body, budget);
        match fence_scan(cut, 0, None) {
            None => cut,
            Some(open) => {
                let nl = if cut.len() > 0 && cut.last() == '\n' {
                    Seq::<char>::empty()
                } else {
                    seq!['\n']
                };
                cut + nl + repeat(open.ch, open.len as nat)
            },
        }
    }
}

// ---------------------------------------------------------------------------
// Laws of truncation
// ---------------------------------------------------------------------------

proof fn lemma_rfind(s: Seq<char>, c: char)
    ensures
        match rfind(s, c) {
            Some(i) => 0 <= i < s.len() && s[i] == c && forall|j: int| i < j < s.len() ==> s[j] != c,
            None => !s.contains(c),
        },
    decreases s.len(),
{
    if s.len() > 0 && s.last() != c {
        lemma_rfind(s.drop_last(), c);
        if let Some(i) = rfind(s, c) {
            assert(s[i] == s.drop_last()[i]);
            assert forall|j: int| i < j < s.len() implies s[j] != c by {
                if j < s.len() - 1 {
                    assert(s[j] == s.drop_last()[j]);
                }
            }
        }
        if rfind(s, c) is None {
            assert forall|j: int| 0 <= j < s.len() implies s[j] != c by {
                if j < s.len() - 1 {
                    assert(s[j] == s.drop_last()[j]);
                }
            }
        }
    }
}

pub(crate) proof fn lemma_run_len_unique(s: Seq<char>, c: char, n: int)
    requires
        0 <= n <= s.len(),
        forall|i: int| 0 <= i < n ==> s[i] == c,
        n == s.len() || s[n] != c,
    ensures
        run_len(s, c) == n,
    decreases n,
{
    if n > 0 {
        assert forall|i: int| 0 <= i < n - 1 implies s.drop_first()[i] == c by {
            assert(s.drop_first()[i] == s[i + 1]);
        }
        lemma_run_len_unique(s.drop_first(), c, n - 1);
    }
}

/// Line ends of `a + b` from a position in `a`: a line completed inside `a`
/// ends where it ends in `a`; the unfinished last line of `a` continues into
/// `b`.
proof fn lemma_line_end_append(a: Seq<char>, b: Seq<char>, p: int)
    requires
        0 <= p < a.len(),
    ensures
        a[line_end(a, p) - 1] == '\n' ==> line_end(a + b, p) == line_end(a, p),
        a[line_end(a, p) - 1] != '\n' ==> line_end(a, p) == a.len() && line_end(a + b, p) == a.len()
            + line_end(b, 0),
    decreases a.len() - p,
{
    crate::parse::lemma_line_end(a, p);
    if a[p] != '\n' {
        if p + 1 < a.len() {
            lemma_line_end_append(a, b, p + 1);
        } else {
            if b.len() > 0 {
                lemma_line_end_shift(a, b, 0);
            } else {
                assert(a + b =~= a);
            }
        }
    }
}

proof fn lemma_line_end_shift(a: Seq<char>, b: Seq<char>, q: int)
    requires
        0 <= q < b.len(),
    ensures
        line_end(a + b, a.len() + q) == a.len() + line_end(b, q),
    decreases b.len() - q,
{
    assert((a + b)[a.len() + q] == b[q]);
    if b[q] != '\n' {
        if q + 1 < b.len() {
            lemma_line_end_shift(a, b, q + 1);
        } else {
            assert(line_end(a + b, a.len() + q + 1) == (a + b).len());
            assert(line_end(b, q + 1) == b.len());
        }
    }
}

proof fn lemma_fence_scan_shift(a: Seq<char>, b: Seq<char>, q: int, f: Option<Fence>)
    requires
        0 <= q <= b.len(),
    ensures
        fence_scan(a + b, a.len() + q, f) == fence_scan(b, q, f),
    decreases b.len() - q,
{
    if q < b.len() {
        lemma_line_end_shift(a, b, q);
        crate::parse::lemma_line_end(b, q);
        let e = line_end(b, q);
        assert((a + b).subrange(a.len() + q, a.len() + e) =~= b.subrange(q, e));
        let line = b.subrange(q, e);
        let next = match f {
            Some(open) => if spec_fence_closer(line, open) {
                None
            } else {
                Some(open)
            },
            None => spec_fence_opener(line),
        };
        lemma_fence_scan_shift(a, b, e, next);
    }
}

/// Scanning `a + b` where `a` ends with a newline: scan `a`, then `b`.
proof fn lemma_fence_scan_concat(a: Seq<char>, b: Seq<char>, p: int, f: Option<Fence>)
    requires
        a.len() > 0,
        a.last() == '\n',
        0 <= p <= a.len(),
    ensures
        fence_scan(a + b, p, f) == fence_scan(b, 0, fence_scan(a, p, f)),
    decreases a.len() - p,
{
    if p < a.len() {
        crate::parse::lemma_line_end(a, p);
        lemma_line_end_append(a, b, p);
        let e = line_end(a, p);
        if a[e - 1] != '\n' {
            assert(a[a.len() - 1] == '\n');
        }
        assert((a + b).subrange(p, e) =~= a.subrange(p, e));
        let line = a.subrange(p, e);
        let next = match f {
            Some(open) => if spec_fence_closer(line, open) {
                None
            } else {
                Some(open)
            },
            None => spec_fence_opener(line),
        };
        lemma_fence_scan_concat(a, b, e, next);
    } else {
        lemma_fence_scan_shift(a, b, 0, f);
        assert(a.len() + 0 == a.len());
    }
}

/// A trailing newline does not change how a line is classified.
proof fn lemma_fence_line_newline(line: Seq<char>, f: Fence)
    requires
        !line.contains('\n'),
        f.ch != '\n',
    ensures
        spec_fence_opener(line.push('\n')) == spec_fence_opener(line),
        spec_fence_closer(line.push('\n'), f) == spec_fence_closer(line, f),
{
    let l2 = line.push('\n');
    crate::text::lemma_run_len_bound(line, ' ');
    let k = run_len(line, ' ');
    assert forall|i: int| 0 <= i < k implies l2[i] == ' ' by {}
    if k == line.len() {
        assert(l2[k as int] == '\n');
    }
    lemma_run_len_unique(l2, ' ', k as int);
    if k < 4 {
        let rest = line.skip(k as int);
        let rest2 = l2.skip(k as int);
        assert(rest2 =~= rest.push('\n'));
        if rest.len() > 0 {
            assert(!rest.contains('\n')) by {
                if rest.contains('\n') {
                    let i = choose|i: int| 0 <= i < rest.len() && rest[i] == '\n';
                    assert(line[k + i] == '\n');
                }
            }
            let ch = rest[0];
            assert(rest2[0] == ch);
            crate::text::lemma_run_len_bound(rest, ch);
            let n = run_len(rest, ch);
            if n == rest.len() {
                assert(rest2[n as int] == '\n');
                assert(rest[0] != '\n');
            }
            lemma_run_len_unique(rest2, ch, n as int);
            assert(rest2.skip(n as int) =~= rest.skip(n as int).push('\n'));
            if rest.skip(n as int).push('\n').contains('`') {
                let i = choose|i: int|
                    0 <= i < rest.skip(n as int).push('\n').len() && rest.skip(n as int).push(
                        '\n',
                    )[i] == '`';
                assert(rest.skip(n as int)[i] == '`');
            }
            if rest.skip(n as int).contains('`') {
                let i = choose|i: int| 0 <= i < rest.skip(n as int).len() && rest.skip(n as int)[i]
                    == '`';
                assert(rest.skip(n as int).push('\n')[i] == '`');
            }
        } else {
            assert(rest2[0] == '\n');
        }
        // Closing line.
        crate::text::lemma_run_len_bound(rest, f.ch);
        let run = run_len(rest, f.ch);
        if run == rest.len() {
            assert(rest2[run as int] == '\n');
        }
        lemma_run_len_unique(rest2, f.ch, run as int);
        assert(rest2.skip(run as int) =~= rest.skip(run as int).push('\n'));
        if all_ws(rest.skip(run as int)) {
            assert forall|i: int| 0 <= i < rest2.skip(run as int).len() implies crate::text::is_ws(
                #[trigger] rest2.skip(run as int)[i],
            ) by {
                if i < rest.skip(run as int).len() {
                    assert(rest2.skip(run as int)[i] == rest.skip(run as int)[i]);
                }
            }
        }
        if all_ws(rest2.skip(run as int)) {
            assert forall|i: int| 0 <= i < rest.skip(run as int).len() implies crate::text::is_ws(
                #[trigger] rest.skip(run as int)[i],
            ) by {
                assert(rest2.skip(run as int)[i] == rest.skip(run as int)[i]);
            }
        }
    }
}

/// A fence the scanner reports open uses a backtick or tilde.
pub open spec fn fence_shape(f: Option<Fence>) -> bool {
    f matches Some(open) ==> (open.ch == '`' || open.ch == '~') && open.len >= 3
}

proof fn lemma_opener_shape(line: Seq<char>)
    requires
        line.len() <= usize::MAX,
    ensures
        fence_shape(spec_fence_opener(line)),
{
    if let Some(k) = crate::parse::strip3(line) {
        let rest = line.skip(k);
        if rest.len() > 0 {
            crate::text::lemma_run_len_bound(line, ' ');
            crate::text::lemma_run_len_bound(rest, rest[0]);
        }
    }
}

proof fn lemma_fence_scan_shape(s: Seq<char>, p: int, f: Option<Fence>)
    requires
        fence_shape(f),
        s.len() <= usize::MAX,
    ensures
        fence_shape(fence_scan(s, p, f)),
    decreases s.len() - p,
{
    if 0 <= p < s.len() {
        crate::parse::lemma_line_end(s, p);
        let e = line_end(s, p);
        let line = s.subrange(p, e);
        let next = match f {
            Some(open) => if spec_fence_closer(line, open) {
                None
            } else {
                Some(open)
            },
            None => spec_fence_opener(line),
        };
        lemma_opener_shape(line);
        lemma_fence_scan_shape(s, e, next);
    }
}

/// Appending a newline to text that does not end with one does not change
/// which fence is left open.
proof fn lemma_fence_scan_push_newline(s: Seq<char>, p: int, f: Option<Fence>)
    requires
        s.len() > 0,
        s.last() != '\n',
        0 <= p < s.len(),
        s.len() < usize::MAX,
        fence_shape(f),
    ensures
        fence_scan(s.push('\n'), p, f) == fence_scan(s, p, f),
    decreases s.len() - p,
{
    let s2 = s.push('\n');
    assert(s2 =~= s + seq!['\n']);
    if p < s.len() {
        crate::parse::lemma_line_end(s, p);
        lemma_line_end_append(s, seq!['\n'], p);
        let e = line_end(s, p);
        let line = s.subrange(p, e);
        let next = match f {
            Some(open) => if spec_fence_closer(line, open) {
                None
            } else {
                Some(open)
            },
            None => spec_fence_opener(line),
        };
        if s[e - 1] == '\n' {
            assert(s2.subrange(p, e) =~= line);
            assert(e < s.len());
            lemma_opener_shape(line);
            lemma_fence_scan_push_newline(s, e, next);
        } else {
            // The last, unfinished line gains its newline.
            assert(line_end(seq!['\n'], 0) == 1);
            assert(s2.subrange(p, e + 1) =~= line.push('\n'));
            assert(!line.contains('\n')) by {
                if line.contains('\n') {
                    let i = choose|i: int| 0 <= i < line.len() && line[i] == '\n';
                    assert(s[p + i] == '\n');
                    if i < line.len() - 1 {
                    } else {
                        assert(s[e - 1] == '\n');
                    }
                }
            }
            match f {
                Some(open) => {
                    lemma_fence_line_newline(line, open);
                },
                None => {
                    lemma_fence_line_newline(line, Fence { ch: '`', len: 3 });
                },
            }
            assert(e == s.len());
            assert(fence_scan(s, e, next) == next);
            assert(fence_scan(s2, e + 1, next) == next);
        }
    }
}

/// The closing line that truncation appends closes the fence it is made for.
proof fn lemma_closing_line(open: Fence)
    requires
        fence_shape(Some(open)),
    ensures
        fence_scan(repeat(open.ch, open.len as nat), 0, Some(open)) is None,
{
    let line = repeat(open.ch, open.len as nat);
    assert(line[0] != ' ');
    lemma_run_len_unique(line, ' ', 0);
    assert(line.skip(0) =~= line);
    lemma_run_len_unique(line, open.ch, open.len as int);
    assert(line.skip(open.len as int).len() == 0);
    assert(!line.contains('\n')) by {
        if line.contains('\n') {
            let i = choose|i: int| 0 <= i < line.len() && line[i] == '\n';
        }
    }
    crate::parse::lemma_line_end(line, 0);
    if line_end(line, 0) < line.len() {
        assert(line[line_end(line, 0) - 1] == '\n');
    }
    assert(line.subrange(0, line.len() as int) =~= line);
    assert(spec_fence_closer(line, open));
    assert(fence_scan(line, line.len() as int, None) is None);
}

/// Truncation keeps a prefix of the body of at most `budget` characters that
/// ends on a line boundary (after a newline, or at the budget when the kept
/// characters hold no newline at all), and the truncated text leaves no code
/// fence open: a fence left open by the cut is closed by an appended line.
pub proof fn lemma_truncation(body: Seq<char>, budget: int)
    requires
        0 < budget < body.len() <= usize::MAX,
    ensures
        ({
            let cut = cut_spec(body, budget);
            let r = truncate_spec(body, budget);
            &&& cut.len() <= budget
            &&& cut == body.take(cut.len() as int)
            &&& (cut.len() > 0 && cut.last() == '\n') || (cut == body.take(budget)
                && !body.take(budget).contains('\n'))
            &&& r.take(cut.len() as int) == cut
            &&& fence_scan(r, 0, None) is None
        }),
{
    let head = body.take(budget);
    lemma_rfind(head, '\n');
    let cut = cut_spec(body, budget);
    match rfind(head, '\n') {
        Some(pos) => {
            assert(cut =~= body.take(pos + 1));
            assert(cut.last() == head[pos]);
        },
        None => {},
    }
    assert(cut =~= body.take(cut.len() as int));
    let r = truncate_spec(body, budget);
    assert(fence_shape(None::<Fence>));
    lemma_fence_scan_shape(cut, 0, None);
    match fence_scan(cut, 0, None) {
        None => {
            assert(r.take(cut.len() as int) =~= cut);
        },
        Some(open) => {
            let nl = if cut.len() > 0 && cut.last() == '\n' {
                Seq::<char>::empty()
            } else {
                seq!['\n']
            };
            let a = cut + nl;
            let closing = repeat(open.ch, open.len as nat);
            assert(r =~= a + closing);
            assert(r.take(cut.len() as int) =~= cut);
            if nl.len() == 0 {
                assert(a =~= cut);
            } else {
                assert(a =~= cut.push('\n'));
                lemma_fence_scan_push_newline(cut, 0, None);
            }
            assert(a.last() == '\n');
            lemma_fence_scan_concat(a, closing, 0, None);
            lemma_closing_line(open);
        },
    }
}

/// The fence left open at the end of `s[..hi]`.
fn open_fence_after(s: &[char], hi: usize) -> (r: Option<Fence>)
    requires
        hi <= s@.len(),
    ensures
        r == fence_scan(s@.take(hi as int), 0, None),
{
    let ghost t = s@.take(hi as int);
    let mut fence: Option<Fence> = None;
    let mut p: usize = 0;
    while p < hi
        invariant
            p <= hi <= s@.len(),
            t == s@.take(hi as int),
            fence_scan(t, p as int, fence) == fence_scan(t, 0, None),
        decreases hi - p,
    {
        proof {
            crate::parse::lemma_line_end(t, p as int);
        }
        let mut e = p;
        while e < hi && s[e] != '\n'
            invariant
                p <= e <= hi <= s@.len(),
                t == s@.take(hi as int),
                line_end(t, p as int) == line_end(t, e as int),
            decreases hi - e,
        {
            e = e + 1;
        }
        if e < hi {
            e = e + 1;
        }
        let line = &s[p..e];
        proof {
            assert(line@ =~= t.subrange(p as int, e as int));
        }
        fence = match fence {
            Some(open) => if fence_closer(line, open) {
                None
            } else {
                Some(open)
            },
            None => fence_opener(line),
        };
        p = e;
    }
    fence
}

/// Cut `body` to at most `budget` characters, ending on a line boundary, and
/// close a code fence left open by the cut.
pub(crate) fn truncate_body(body: &[char], budget: usize) -> (r: Vec<char>)
    ensures
        r@ == truncate_spec(body@, budget as int),
{
    if body.len() <= budget {
        return vstd::slice::slice_to_vec(body);
    }
    // The last newline among the first `budget` characters.
    let mut i = budget;
    while i > 0 && body[i - 1] != '\n'
        invariant
            i <= budget < body@.len(),
            rfind(body@.take(budget as int), '\n') == rfind(body@.take(i as int), '\n'),
        decreases i,
    {
        proof {
            assert(body@.take(i as int).drop_last() =~= body@.take(i - 1));
        }
        i = i - 1;
    }
    let end = if i > 0 {
        i
    } else {
        budget
    };
    proof {
        if i > 0 {
            assert(body@.take(i as int).last() == '\n');
        } else {
            assert(body@.take(0) =~= Seq::<char>::empty());
        }
    }
    let fence = open_fence_after(body, end);
    let mut out: Vec<char> = Vec::new();
    let mut j: usize = 0;
    while j < end
        invariant
            j <= end <= body@.len(),
            out@ == body@.take(j as int),
        decreases end - j,
    {
        out.push(body[j]);
        proof {
            assert(body@.take(j + 1) =~= body@.take(j as int).push(body@[j as int]));
        }
        j = j + 1;
    }
    match fence {
        None => out,
        Some(open) => {
            let ghost cut = out@;
            if !(end > 0 && body[end - 1] == '\n') {
                out.push('\n');
            }
            let ghost with_nl = out@;
            let mut k: usize = 0;
            while k < open.len
                invariant
                    k <= open.len,
                    out@ == with_nl + repeat(open.ch, k as nat),
                decreases open.len - k,
            {
                out.push(open.ch);
                proof {
                    assert(with_nl + repeat(open.ch, (k + 1) as nat) =~= (with_nl + repeat(
                        open.ch,
                        k as nat,
                    )).push(open.ch));
                }
                k = k + 1;
            }
            proof {
                if end > 0 && body@[end - 1] == '\n' {
                    assert(cut.last() == '\n');
                    assert(with_nl =~= cut + Seq::<char>::empty());
                } else {
                    assert(with_nl =~= cut + seq!['\n']);
                }
            }
            out
        },
    }
}

proof fn lemma_fit_len(body: Seq<char>, budget: int, b: int)
    requires
        budget >= 0,
    ensures
        fit_spec(body, budget, b).len() <= budget,
    decreases b,
{
    if b > 0 {
        let r = truncate_spec(body, b);
        if r.len() > budget {
            lemma_rfind(body.take(b), '\n');
            lemma_fit_len(body, budget, next_cut_budget(body, b));
        }
    }
}

proof fn lemma_fit_is_truncation(body: Seq<char>, budget: int, b: int)
    requires
        0 <= budget < body.len() <= usize::MAX,
        b <= budget,
    ensures
        fence_scan(fit_spec(body, budget, b), 0, None) is None,
        fit_spec(body, budget, b).len() == 0 || exists|b2: int|
            0 < b2 <= budget && fit_spec(body, budget, b) == truncate_spec(body, b2),
    decreases b,
{
    if b > 0 {
        let r = truncate_spec(body, b);
        lemma_truncation(body, b);
        if r.len() > budget {
            lemma_rfind(body.take(b), '\n');
            lemma_fit_is_truncation(body, budget, next_cut_budget(body, b));
        }
    }
}

/// The last `c` of `s` is found where it is.
proof fn lemma_rfind_at(s: Seq<char>, c: char, p: int)
    requires
        0 <= p < s.len(),
        s[p] == c,
        forall|j: int| p < j < s.len() ==> s[j] != c,
    ensures
        rfind(s, c) == Some(p),
    decreases s.len(),
{
    if s.last() != c {
        assert(p < s.len() - 1);
        assert(s.drop_last()[p] == s[p]);
        assert forall|j: int| p < j < s.drop_last().len() implies s.drop_last()[j] != c by {
            assert(s.drop_last()[j] == s[j]);
        }
        lemma_rfind_at(s.drop_last(), c, p);
    }
}

/// Every budget from the end of the lines kept at `b` up to `b` keeps the
/// same lines.
proof fn lemma_same_cut(body: Seq<char>, b: int, b2: int)
    requires
        0 < b2 <= b < body.len(),
        rfind(body.take(b), '\n') matches Some(p) && p < b2,
    ensures
        truncate_spec(body, b2) == truncate_spec(body, b),
{
    lemma_rfind(body.take(b), '\n');
    let p = rfind(body.take(b), '\n')->0;
    assert forall|j: int| p < j < body.take(b2).len() implies body.take(b2)[j] != '\n' by {
        assert(body.take(b2)[j] == body.take(b)[j]);
    }
    assert(body.take(b2)[p] == body.take(b)[p]);
    lemma_rfind_at(body.take(b2), '\n', p);
}

proof fn lemma_fit_largest(body: Seq<char>, budget: int, b: int)
    requires
        0 <= budget < body.len(),
        0 <= b <= budget,
        forall|b2: int| b < b2 <= budget ==> (#[trigger] truncate_spec(body, b2)).len() > budget,
    ensures
        fit_spec(body, budget, b).len() == 0 && (forall|b2: int|
            0 < b2 <= budget ==> (#[trigger] truncate_spec(body, b2)).len() > budget) || exists|
            b1: int,
        |
            0 < b1 <= budget && fit_spec(body, budget, b) == #[trigger] truncate_spec(body, b1)
                && truncate_spec(body, b1).len() <= budget && forall|b2: int|
                b1 < b2 <= budget ==> (#[trigger] truncate_spec(body, b2)).len() > budget,
    decreases b,
{
    if b > 0 {
        let r = truncate_spec(body, b);
        if r.len() > budget {
            lemma_rfind(body.take(b), '\n');
            let nb = next_cut_budget(body, b);
            assert forall|b2: int| nb < b2 <= budget implies (#[trigger] truncate_spec(
                body,
                b2,
            )).len() > budget by {
                if b2 < b {
                    lemma_same_cut(body, b, b2);
                }
            }
            lemma_fit_largest(body, budget, nb);
        }
    }
}

/// Truncation within a budget: the kept text holds at most `budget`
/// characters, the line that closes a fence included, and leaves no code
/// fence open; unless it is empty, it is the truncation at some budget no
/// larger, so (by `lemma_truncation`) a prefix of the body ending on a line
/// boundary, plus that closing line when one is needed.
pub proof fn lemma_fitted_truncation(body: Seq<char>, budget: int)
    requires
        0 <= budget < body.len() <= usize::MAX,
    ensures
        fit_spec(body, budget, budget).len() <= budget,
        fence_scan(fit_spec(body, budget, budget), 0, None) is None,
        fit_spec(body, budget, budget).len() == 0 || exists|b: int|
            0 < b <= budget && fit_spec(body, budget, budget) == truncate_spec(body, b),
{
    lemma_fit_len(body, budget, budget);
    lemma_fit_is_truncation(body, budget, budget);
}

/// The fitted cut is the longest truncation that fits: it is the truncation
/// at the largest budget `b <= budget` whose result holds at most `budget`
/// characters, and it is empty only when no budget `b > 0` gives such a
/// result.
pub proof fn lemma_fitted_truncation_is_longest(body: Seq<char>, budget: int)
    requires
        0 <= budget < body.len(),
    ensures
        fit_spec(body, budget, budget).len() == 0 && (forall|b2: int|
            0 < b2 <= budget ==> (#[trigger] truncate_spec(body, b2)).len() > budget) || exists|
            b: int,
        |
            0 < b <= budget && fit_spec(body, budget, budget) == #[trigger] truncate_spec(body, b)
                && truncate_spec(body, b).len() <= budget && forall|b2: int|
                b < b2 <= budget ==> (#[trigger] truncate_spec(body, b2)).len() > budget,
{
    lemma_fit_largest(body, budget, budget);
}

/// Cut `body` to at most `budget` characters, ending on a line boundary,
/// with the line that closes a fence left open by the cut counted in the
/// budget.
pub(crate) fn truncate_fit(body: &[char], budget: usize) -> (r: Vec<char>)
    ensures
        r@ == fit_spec(body@, budget as int, budget as int),
        r@.len() <= budget,
{
    proof {
        lemma_fit_len(body@, budget as int, budget as int);
    }
    let mut b = budget;
    loop
        invariant
            b <= budget,
            fit_spec(body@, budget as int, b as int) == fit_spec(body@, budget as int, budget as int),
        decreases b,
    {
        if b == 0 {
            return Vec::new();
        }
        let r = truncate_body(body, b);
        if r.len() <= budget {
            return r;
        }
        // Every budget down to the end of the kept lines cuts the same way:
        // go straight to one that keeps a line less.
        let mut i = b;
        while i > 0 && body[i - 1] != '\n'
            invariant
                i <= b < body@.len(),
                rfind(body@.take(b as int), '\n') == rfind(body@.take(i as int), '\n'),
            decreases i,
        {
            proof {
                assert(body@.take(i as int).drop_last() =~= body@.take(i - 1));
            }
            i = i - 1;
        }
        proof {
            if i > 0 {
                assert(body@.take(i as int).last() == '\n');
            } else {
                assert(body@.take(0) =~= Seq::<char>::empty());
            }
        }
        b = if i > 0 {
            i - 1
        } else {
            b - 1
        };
    }
}

// ---------------------------------------------------------------------------
// Layout
// ---------------------------------------------------------------------------

pub const END_MARKER: &'static str = "--- FIN DE SECTION ---";

pub const TRUNCATION_MARKER: &'static str = "\n\n[... Section tronquée pour respecter le budget de tokens ...]";

/// One ranked section to lay out: its index in the section list, and its
/// score as printed.
pub struct RankedSection {
    pub section_idx: usize,
    pub score_label: String,
}

/// `a - b`, or 0 when `b` exceeds `a` (`usize::saturating_sub`).
pub open spec fn sat_sub(a: int, b: int) -> int {
    if a > b {
        a - b
    } else {
        0
    }
}

/// The line that opens the block of a section whose score reads `label`.
pub open spec fn score_line(label: Seq<char>) -> Seq<char> {
    "--- DÉBUT DE SECTION (Score: "@ + label + ") ---\n"@
}

/// The lines that open a block: the score line, the heading line (not for a
/// preamble) and the ancestry line (when there is one).
pub open spec fn block_head(sec: Section, label: Seq<char>) -> Seq<char> {
    let title = if sec.level > 0 {
        repeat('#', sec.level as nat) + seq![' '] + sec.heading@ + seq!['\n']
    } else {
        Seq::empty()
    };
    let crumb = if sec.breadcrumb@.len() > 0 {
        seq!['>', ' '] + join(strings_view(sec.breadcrumb@), " > "@) + seq!['\n']
    } else {
        Seq::empty()
    };
    score_line(label) + title + crumb
}

/// Characters of the block frame: opening lines, end marker line and blank
/// line.
pub open spec fn frame_len(sec: Section, label: Seq<char>) -> int {
    (block_head(sec, label).len() + END_MARKER@.len() + 3) as int
}

/// The lines that close a block.
pub open spec fn block_tail() -> Seq<char> {
    seq!['\n'] + END_MARKER@ + seq!['\n', '\n']
}

/// The next budget worth trying after truncation at `b` characters was too
/// long: every budget from the end of the kept lines up to `b` keeps the
/// same lines, so the next one keeps a line less; without a newline, one
/// character less.
pub open spec fn next_cut_budget(body: Seq<char>, b: int) -> int {
    match rfind(body.take(b), '\n') {
        Some(p) => if 0 <= p < b {
            p
        } else {
            b - 1
        },
        None => b - 1,
    }
}

/// `body` cut to at most `budget` characters, the line that closes a fence
/// left open by the cut included: truncation at `b` characters, tried again
/// at the next smaller budget that cuts differently while the result is
/// longer than `budget`.
pub open spec fn fit_spec(body: Seq<char>, budget: int, b: int) -> Seq<char>
    decreases b,
{
    if b <= 0 {
        Seq::empty()
    } else {
        let r = truncate_spec(body, b);
        if r.len() <= budget {
            r
        } else {
            fit_spec(body, budget, next_cut_budget(body, b))
        }
    }
}

/// The block of a section laid out within `budget` characters, or `None`
/// when it cannot fit. The frame (opening lines, end marker) always takes
/// its room; a body that does not fit in full is cut and followed by the
/// truncation marker, which then needs its room too.
pub open spec fn block_spec(c: Seq<char>, sec: Section, label: Seq<char>, budget: int) -> Option<
    Seq<char>,
> {
    let head = block_head(sec, label);
    let body = byte_slice(c, sec.range.start as int, sec.range.end as int);
    let room = budget - frame_len(sec, label);
    if room < 0 {
        None
    } else if body.len() <= room {
        Some(head + body + block_tail())
    } else if room < TRUNCATION_MARKER@.len() {
        None
    } else {
        let cut_budget = room - TRUNCATION_MARKER@.len();
        Some(head + fit_spec(body, cut_budget, cut_budget) + TRUNCATION_MARKER@ + block_tail())
    }
}

/// The budget the block of rank `rank` is laid out with when `remaining`
/// characters are left: an even share of what is left, or, when the block
/// cannot fit its share, all that is left; `None` when it cannot fit even
/// that.
pub open spec fn block_budget(
    c: Seq<char>,
    secs: Seq<Section>,
    ranked: Seq<RankedSection>,
    remaining: int,
    rank: int,
) -> Option<int> {
    let share = remaining / (ranked.len() - rank);
    let sec = secs[ranked[rank].section_idx as int];
    let label = ranked[rank].score_label@;
    if block_spec(c, sec, label, share) is Some {
        Some(share)
    } else if block_spec(c, sec, label, remaining) is Some {
        Some(remaining)
    } else {
        None
    }
}

/// The blocks from rank `rank` on, with `remaining` characters left: each
/// block may spend an even share of what is left (or all of it when its
/// frame needs more than the share), whatever a block leaves unused flows to
/// the next ones, and the layout stops when no character is left for a
/// share or a block cannot fit what is left.
pub open spec fn blocks_spec(
    c: Seq<char>,
    secs: Seq<Section>,
    ranked: Seq<RankedSection>,
    remaining: int,
    rank: int,
) -> Seq<char>
    decreases ranked.len() - rank,
{
    if rank < 0 || rank >= ranked.len() || remaining <= 0 || remaining / (ranked.len() - rank) == 0 {
        Seq::empty()
    } else {
        match block_budget(c, secs, ranked, remaining, rank) {
            None => Seq::empty(),
            Some(budget) => match block_spec(
                c,
                secs[ranked[rank].section_idx as int],
                ranked[rank].score_label@,
                budget,
            ) {
                None => Seq::empty(),
                Some(b) => b + blocks_spec(
                    c,
                    secs,
                    ranked,
                    sat_sub(remaining, b.len() as int),
                    rank + 1,
                ),
            },
        }
    }
}

/// The blocks laid out from rank `rank` on, in rank order, one per ranked
/// section written.
pub open spec fn block_list(
    c: Seq<char>,
    secs: Seq<Section>,
    ranked: Seq<RankedSection>,
    remaining: int,
    rank: int,
) -> Seq<Seq<char>>
    decreases ranked.len() - rank,
{
    if rank < 0 || rank >= ranked.len() || remaining <= 0 || remaining / (ranked.len() - rank) == 0 {
        Seq::empty()
    } else {
        match block_budget(c, secs, ranked, remaining, rank) {
            None => Seq::empty(),
            Some(budget) => match block_spec(
                c,
                secs[ranked[rank].section_idx as int],
                ranked[rank].score_label@,
                budget,
            ) {
                None => Seq::empty(),
                Some(b) => seq![b] + block_list(
                    c,
                    secs,
                    ranked,
                    sat_sub(remaining, b.len() as int),
                    rank + 1,
                ),
            },
        }
    }
}

/// The budgets the blocks from rank `rank` on were laid out with, one per
/// block written.
pub open spec fn share_list(
    c: Seq<char>,
    secs: Seq<Section>,
    ranked: Seq<RankedSection>,
    remaining: int,
    rank: int,
) -> Seq<int>
    decreases ranked.len() - rank,
{
    if rank < 0 || rank >= ranked.len() || remaining <= 0 || remaining / (ranked.len() - rank) == 0 {
        Seq::empty()
    } else {
        match block_budget(c, secs, ranked, remaining, rank) {
            None => Seq::empty(),
            Some(budget) => match block_spec(
                c,
                secs[ranked[rank].section_idx as int],
                ranked[rank].score_label@,
                budget,
            ) {
                None => Seq::empty(),
                Some(b) => seq![budget] + share_list(
                    c,
                    secs,
                    ranked,
                    sat_sub(remaining, b.len() as int),
                    rank + 1,
                ),
            },
        }
    }
}

/// The first line of the output.
pub open spec fn header_spec(query: Seq<char>) -> Seq<char> {
    "Résultats de recherche pour '"@ + query + "' :\n\n"@
}

/// The whole output for a budget of `max_tokens` tokens (4 characters each).
pub open spec fn render_spec(
    c: Seq<char>,
    secs: Seq<Section>,
    ranked: Seq<RankedSection>,
    query: Seq<char>,
    max_tokens: int,
) -> Seq<char> {
    let header = header_spec(query);
    header + blocks_spec(c, secs, ranked, sat_sub(max_tokens * 4, header.len() as int), 0)
}

fn push_all(out: &mut String, src: &[char])
    ensures
        final(out)@ == old(out)@ + src@,
{
    let mut i: usize = 0;
    while i < src.len()
        invariant
            i <= src@.len(),
            out@ == old(out)@ + src@.take(i as int),
        decreases src@.len() - i,
    {
        out.push(src[i]);
        proof {
            assert(old(out)@ + src@.take(i + 1) =~= (old(out)@ + src@.take(i as int)).push(
                src@[i as int],
            ));
        }
        i = i + 1;
    }
    proof {
        assert(src@.take(i as int) =~= src@);
    }
}

fn render_head(section: &Section, score_label: &str) -> (head: String)
    ensures
        head@ == block_head(*section, score_label@),
{
    let mut block = String::new();
    block.append("--- DÉBUT DE SECTION (Score: ");
    block.append(score_label);
    block.append(") ---\n");
    let ghost score_line = block@;
    if section.level > 0 {
        let mut i: u8 = 0;
        while i < section.level
            invariant
                i <= section.level,
                block@ == score_line + repeat('#', i as nat),
            decreases section.level - i,
        {
            block.push('#');
            proof {
                assert(score_line + repeat('#', (i + 1) as nat) =~= (score_line + repeat(
                    '#',
                    i as nat,
                )).push('#'));
            }
            i = i + 1;
        }
        block.push(' ');
        block.append(section.heading.as_str());
        block.push('\n');
    }
    let ghost with_title = block@;
    if section.breadcrumb.len() > 0 {
        block.push('>');
        block.push(' ');
        let crumb = crate::rank::join_chars(section.breadcrumb.as_slice(), " > ");
        push_all(&mut block, crumb.as_slice());
        block.push('\n');
    }
    proof {
        let title = if section.level > 0 {
            repeat('#', section.level as nat) + seq![' '] + section.heading@ + seq!['\n']
        } else {
            Seq::empty()
        };
        assert(with_title =~= score_line + title);
        assert(block@ =~= block_head(*section, score_label@));
    }
    block
}

fn render_block(corpus: &str, section: &Section, score_label: &str, budget_chars: usize) -> (block:
    Option<String>)
    requires
        valid_byte_range(corpus@, section.range.start as int, section.range.end as int),
    ensures
        block matches Some(b) ==> block_spec(corpus@, *section, score_label@, budget_chars as int)
            == Some(b@),
        block is None ==> block_spec(corpus@, *section, score_label@, budget_chars as int) is None,
{
    let body_str = slice_str(corpus, section.range.start, section.range.end);
    let body = chars_of(body_str);
    let mut block = render_head(section, score_label);
    let ghost head = block@;
    proof {
        reveal_strlit("--- FIN DE SECTION ---");
    }
    assert(END_MARKER@.len() == 22);
    let head_len = block.as_str().unicode_len();
    // The frame: opening lines, then "\n", the end marker and "\n\n".
    if head_len > budget_chars || budget_chars - head_len < 25 {
        return None;
    }
    let room = budget_chars - head_len - 25;
    let trunc_len = TRUNCATION_MARKER.unicode_len();
    if body.len() <= room {
        push_all(&mut block, body.as_slice());
    } else {
        if room < trunc_len {
            return None;
        }
        let cut_budget = room - trunc_len;
        let t = truncate_fit(body.as_slice(), cut_budget);
        push_all(&mut block, t.as_slice());
        block.append(TRUNCATION_MARKER);
    }
    let ghost with_text = block@;
    block.push('\n');
    block.append(END_MARKER);
    block.push('\n');
    block.push('\n');
    assert(block@ =~= with_text + block_tail());
    proof {
        if body@.len() <= room {
            assert(with_text =~= head + body@);
        } else {
            let cb = room - TRUNCATION_MARKER@.len();
            assert(with_text =~= head + fit_spec(body@, cb, cb) + TRUNCATION_MARKER@);
        }
    }
    Some(block)
}

/// Render the ranked sections under the token budget (1 token = 4
/// characters, counted in characters, not bytes).
pub fn render_hits(
    corpus: &str,
    sections: &[Section],
    ranked: &[RankedSection],
    query: &str,
    max_tokens: usize,
) -> (r: Result<String, SearchError>)
    requires
        max_tokens <= usize::MAX / 4,
        forall|t: int|
            0 <= t < ranked@.len() ==> (#[trigger] ranked@[t]).section_idx < sections@.len(),
        forall|t: int|
            0 <= t < ranked@.len() ==> valid_byte_range(
                corpus@,
                sections@[(#[trigger] ranked@[t]).section_idx as int].range.start as int,
                sections@[ranked@[t].section_idx as int].range.end as int,
            ),
    ensures
        max_tokens == 0 ==> (r matches Err(SearchError::InvalidParam(p)) && p@ == "max_tokens"@),
        max_tokens > 0 ==> (r matches Ok(out) && out@ == render_spec(
            corpus@,
            sections@,
            ranked@,
            query@,
            max_tokens as int,
        )),
        max_tokens > 0 && max_tokens * 4 >= header_spec(query@).len() ==> (r matches Ok(out)
            && out@.len() <= max_tokens * 4),
{
    proof {
        lemma_output_within_budget(corpus@, sections@, ranked@, query@, max_tokens as int);
    }
    if max_tokens == 0 {
        return Err(SearchError::InvalidParam("max_tokens"));
    }
    let mut out = String::new();
    out.append("Résultats de recherche pour '");
    out.append(query);
    out.append("' :\n\n");
    let ghost header = out@;
    let mut remaining = (max_tokens * 4).saturating_sub(out.as_str().unicode_len());
    let n = ranked.len();
    let mut rank: usize = 0;
    proof {
        assert(header =~= header_spec(query@));
    }
    while rank < n
        invariant
            n == ranked@.len(),
            rank <= n,
            forall|t: int|
                0 <= t < ranked@.len() ==> (#[trigger] ranked@[t]).section_idx < sections@.len(),
            forall|t: int|
                0 <= t < ranked@.len() ==> valid_byte_range(
                    corpus@,
                    sections@[(#[trigger] ranked@[t]).section_idx as int].range.start as int,
                    sections@[ranked@[t].section_idx as int].range.end as int,
                ),
            out@ + blocks_spec(corpus@, sections@, ranked@, remaining as int, rank as int)
                == header + blocks_spec(
                corpus@,
                sections@,
                ranked@,
                sat_sub(max_tokens * 4, header.len() as int),
                0,
            ),
        ensures
            out@ == header + blocks_spec(
                corpus@,
                sections@,
                ranked@,
                sat_sub(max_tokens * 4, header.len() as int),
                0,
            ),
        decreases n - rank,
    {
        if remaining == 0 {
            proof {
                assert(out@ =~= out@ + blocks_spec(
                    corpus@,
                    sections@,
                    ranked@,
                    remaining as int,
                    rank as int,
                ));
            }
            break;
        }
        // Greedy waterfall: each block may spend an even share of what is
        // left; whatever a short section leaves unused flows to the next ones.
        let share = remaining / (n - rank);
        if share == 0 {
            proof {
                assert(out@ =~= out@ + blocks_spec(
                    corpus@,
                    sections@,
                    ranked@,
                    remaining as int,
                    rank as int,
                ));
            }
            break;
        }
        let item = &ranked[rank];
        assert(valid_byte_range(
            corpus@,
            sections@[ranked@[rank as int].section_idx as int].range.start as int,
            sections@[ranked@[rank as int].section_idx as int].range.end as int,
        ));
        let section = &sections[item.section_idx];
        let label = item.score_label.as_str();
        // A block whose frame needs more than its share may use all that is
        // left.
        let placed = match render_block(corpus, section, label, share) {
            Some(b) => Some(b),
            None => render_block(corpus, section, label, remaining),
        };
        let block = match placed {
            Some(b) => b,
            None => {
                proof {
                    assert(out@ =~= out@ + blocks_spec(
                        corpus@,
                        sections@,
                        ranked@,
                        remaining as int,
                        rank as int,
                    ));
                }
                break;
            },
        };
        let ghost before = out@;
        let ghost rem_before = remaining;
        remaining = remaining.saturating_sub(block.as_str().unicode_len());
        out.append(block.as_str());
        proof {
            assert(before + blocks_spec(
                corpus@,
                sections@,
                ranked@,
                rem_before as int,
                rank as int,
            ) == out@ + blocks_spec(corpus@, sections@, ranked@, remaining as int, rank + 1));
        }
        rank = rank + 1;
        proof {
            if rank == n {
                assert(out@ =~= out@ + blocks_spec(
                    corpus@,
                    sections@,
                    ranked@,
                    remaining as int,
                    rank as int,
                ));
            }
        }
    }
    Ok(out)
}

// ---------------------------------------------------------------------------
// Laws of the budget
// ---------------------------------------------------------------------------

/// A laid-out block stays within its budget: the frame, the body or its
/// cut (the closing fence line included) and the truncation marker all fit.
pub proof fn lemma_block_fits(c: Seq<char>, sec: Section, label: Seq<char>, budget: int)
    ensures
        block_spec(c, sec, label, budget) matches Some(b) ==> b.len() <= budget,
{
    let room = budget - frame_len(sec, label);
    let body = byte_slice(c, sec.range.start as int, sec.range.end as int);
    assert(block_tail().len() == END_MARKER@.len() + 3);
    if room >= TRUNCATION_MARKER@.len() && body.len() > room {
        let cb = room - TRUNCATION_MARKER@.len();
        lemma_fit_len(body, cb, cb);
    }
}

/// The blocks from rank `rank` on hold at most the `remaining` characters
/// left for them.
pub proof fn lemma_blocks_within(
    c: Seq<char>,
    secs: Seq<Section>,
    ranked: Seq<RankedSection>,
    remaining: int,
    rank: int,
)
    requires
        remaining >= 0,
    ensures
        blocks_spec(c, secs, ranked, remaining, rank).len() <= remaining,
    decreases ranked.len() - rank,
{
    if !(rank < 0 || rank >= ranked.len() || remaining <= 0) {
        let share = remaining / (ranked.len() - rank);
        let sec = secs[ranked[rank].section_idx as int];
        let label = ranked[rank].score_label@;
        assert(share <= remaining) by (nonlinear_arith)
            requires
                share == remaining / (ranked.len() - rank),
                ranked.len() - rank >= 1,
                remaining >= 0,
        ;
        if share != 0 {
            if let Some(budget) = block_budget(c, secs, ranked, remaining, rank) {
                lemma_block_fits(c, sec, label, budget);
                if let Some(b) = block_spec(c, sec, label, budget) {
                    lemma_blocks_within(
                        c,
                        secs,
                        ranked,
                        sat_sub(remaining, b.len() as int),
                        rank + 1,
                    );
                }
            }
        }
    }
}

/// Greedy even shares: when the block of rank `rank` fits its even share of
/// what is left (what is left divided by the ranked sections still to
/// place), it is laid out with exactly that share, and the sections after it
/// share what it leaves unused.
pub proof fn lemma_even_share(
    c: Seq<char>,
    secs: Seq<Section>,
    ranked: Seq<RankedSection>,
    remaining: int,
    rank: int,
)
    requires
        0 <= rank < ranked.len(),
        remaining > 0,
        remaining / (ranked.len() - rank) > 0,
        block_spec(
            c,
            secs[ranked[rank].section_idx as int],
            ranked[rank].score_label@,
            remaining / (ranked.len() - rank),
        ) is Some,
    ensures
        ({
            let share = remaining / (ranked.len() - rank);
            let b = block_spec(
                c,
                secs[ranked[rank].section_idx as int],
                ranked[rank].score_label@,
                share,
            )->0;
            &&& blocks_spec(c, secs, ranked, remaining, rank) == b + blocks_spec(
                c,
                secs,
                ranked,
                remaining - b.len(),
                rank + 1,
            )
            &&& share_list(c, secs, ranked, remaining, rank)[0] == share
        }),
{
    let share = remaining / (ranked.len() - rank);
    let sec = secs[ranked[rank].section_idx as int];
    let label = ranked[rank].score_label@;
    let b = block_spec(c, sec, label, share)->0;
    lemma_block_fits(c, sec, label, share);
    assert(share <= remaining) by (nonlinear_arith)
        requires
            share == remaining / (ranked.len() - rank),
            ranked.len() - rank >= 1,
            remaining >= 0,
    ;
    assert(sat_sub(remaining, b.len() as int) == remaining - b.len());
}

/// Token budget: the output holds at most `max_tokens * 4` characters, or
/// just the header line when that alone is longer.
pub proof fn lemma_output_within_budget(
    c: Seq<char>,
    secs: Seq<Section>,
    ranked: Seq<RankedSection>,
    query: Seq<char>,
    max_tokens: int,
)
    requires
        max_tokens >= 0,
    ensures
        render_spec(c, secs, ranked, query, max_tokens).len() <= if max_tokens * 4 > header_spec(
            query,
        ).len() {
            max_tokens * 4
        } else {
            header_spec(query).len() as int
        },
{
    let header = header_spec(query);
    let remaining = sat_sub(max_tokens * 4, header.len() as int);
    lemma_blocks_within(c, secs, ranked, remaining, 0);
}

/// A laid-out block opens with the score line of its section and closes
/// with the end marker and a blank line.
pub proof fn lemma_block_frame(c: Seq<char>, sec: Section, label: Seq<char>, budget: int)
    ensures
        block_spec(c, sec, label, budget) matches Some(b) ==> {
            &&& b.len() >= score_line(label).len() + block_tail().len()
            &&& b.take(score_line(label).len() as int) == score_line(label)
            &&& b.skip(b.len() - block_tail().len()) == block_tail()
        },
{
    if let Some(b) = block_spec(c, sec, label, budget) {
        let head = block_head(sec, label);
        let sl = score_line(label);
        assert(head.take(sl.len() as int) =~= sl);
        let mid = b.take(b.len() - block_tail().len());
        assert(b =~= mid + block_tail());
        assert(mid.take(head.len() as int) =~= head);
        assert(b.take(sl.len() as int) =~= sl);
        assert(b.skip(b.len() - block_tail().len()) =~= block_tail());
    }
}

proof fn lemma_block_list(
    c: Seq<char>,
    secs: Seq<Section>,
    ranked: Seq<RankedSection>,
    remaining: int,
    rank: int,
)
    requires
        0 <= rank <= ranked.len(),
    ensures
        blocks_spec(c, secs, ranked, remaining, rank) == block_list(
            c,
            secs,
            ranked,
            remaining,
            rank,
        ).flatten(),
        block_list(c, secs, ranked, remaining, rank).len() <= ranked.len() - rank,
        share_list(c, secs, ranked, remaining, rank).len() == block_list(
            c,
            secs,
            ranked,
            remaining,
            rank,
        ).len(),
        forall|i: int|
            0 <= i < block_list(c, secs, ranked, remaining, rank).len() ==> block_spec(
                c,
                secs[ranked[rank + i].section_idx as int],
                ranked[rank + i].score_label@,
                share_list(c, secs, ranked, remaining, rank)[i],
            ) == Some(#[trigger] block_list(c, secs, ranked, remaining, rank)[i]),
    decreases ranked.len() - rank,
{
    let l = block_list(c, secs, ranked, remaining, rank);
    let sh = share_list(c, secs, ranked, remaining, rank);
    if !(rank >= ranked.len() || remaining <= 0 || remaining / (ranked.len() - rank) == 0) {
        let sec = secs[ranked[rank].section_idx as int];
        let label = ranked[rank].score_label@;
        if let Some(budget) = block_budget(c, secs, ranked, remaining, rank) {
            if let Some(b) = block_spec(c, sec, label, budget) {
                let rem = sat_sub(remaining, b.len() as int);
                lemma_block_list(c, secs, ranked, rem, rank + 1);
                let rest = block_list(c, secs, ranked, rem, rank + 1);
                let srest = share_list(c, secs, ranked, rem, rank + 1);
                assert(l =~= seq![b] + rest);
                assert(sh =~= seq![budget] + srest);
                assert(l.drop_first() =~= rest);
                assert forall|i: int| 0 <= i < l.len() implies block_spec(
                    c,
                    secs[ranked[rank + i].section_idx as int],
                    ranked[rank + i].score_label@,
                    sh[i],
                ) == Some(#[trigger] l[i]) by {
                    if i > 0 {
                        assert(l[i] == rest[i - 1]);
                        assert(sh[i] == srest[i - 1]);
                        assert(rank + 1 + (i - 1) == rank + i);
                    }
                }
            }
        }
    }
}

/// The output is the header, then the blocks of the first ranked sections
/// in rank order, one per section: each is the layout of its section within
/// the budget it was given, opening with the section's score line and
/// closing with the end marker.
pub proof fn lemma_render_shape(
    c: Seq<char>,
    secs: Seq<Section>,
    ranked: Seq<RankedSection>,
    query: Seq<char>,
    max_tokens: int,
)
    ensures
        ({
            let rem = sat_sub(max_tokens * 4, header_spec(query).len() as int);
            let l = block_list(c, secs, ranked, rem, 0);
            let sh = share_list(c, secs, ranked, rem, 0);
            &&& render_spec(c, secs, ranked, query, max_tokens) == header_spec(query) + l.flatten()
            &&& l.len() <= ranked.len()
            &&& sh.len() == l.len()
            &&& forall|i: int|
                0 <= i < l.len() ==> {
                    &&& block_spec(
                        c,
                        secs[ranked[i].section_idx as int],
                        ranked[i].score_label@,
                        sh[i],
                    ) == Some(#[trigger] l[i])
                    &&& l[i].take(score_line(ranked[i].score_label@).len() as int) == score_line(
                        ranked[i].score_label@,
                    )
                    &&& l[i].skip(l[i].len() - block_tail().len()) == block_tail()
                }
        }),
{
    let rem = sat_sub(max_tokens * 4, header_spec(query).len() as int);
    lemma_block_list(c, secs, ranked, rem, 0);
    let l = block_list(c, secs, ranked, rem, 0);
    let sh = share_list(c, secs, ranked, rem, 0);
    assert forall|i: int| 0 <= i < l.len() implies {
        &&& block_spec(c, secs[ranked[i].section_idx as int], ranked[i].score_label@, sh[i])
            == Some(#[trigger] l[i])
        &&& l[i].take(score_line(ranked[i].score_label@).len() as int) == score_line(
            ranked[i].score_label@,
        )
        &&& l[i].skip(l[i].len() - block_tail().len()) == block_tail()
    } by {
        assert(0 + i == i);
        lemma_block_frame(c, secs[ranked[i].section_idx as int], ranked[i].score_label@, sh[i]);
    }
}

} // verus!
