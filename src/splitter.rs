//! Cutting plain text into bounded segments that end at natural boundaries.
//!
//! All offsets and lengths here count characters (`char`s), not bytes.
use vstd::prelude::*;

verus! {

/// Longest segment handed to the remote service unless configured otherwise.
pub const DEFAULT_MAX_SEGMENT_LENGTH: usize = 1500;

/// Whether a character has the Unicode `White_Space` property.
pub open spec fn white_space(c: char) -> bool {
    let u = c as u32;
    ||| 9 <= u <= 13
    ||| u == 0x20
    ||| u == 0x85
    ||| u == 0xa0
    ||| u == 0x1680
    ||| 0x2000 <= u <= 0x200a
    ||| u == 0x2028
    ||| u == 0x2029
    ||| u == 0x202f
    ||| u == 0x205f
    ||| u == 0x3000
}

/// Relies on `char::is_whitespace`, which reports the Unicode `White_Space`
/// property.
#[verifier::external_body]
pub(crate) fn is_white_space(c: char) -> (r: bool)
    ensures
        r == white_space(c),
{
    c.is_whitespace()
}

/// A character that may end a sentence.
pub open spec fn is_terminator(c: char) -> bool {
    c == '.' || c == '!' || c == '?'
}

/// A character the splitter looks for when searching for a cut.
pub open spec fn is_mark(c: char) -> bool {
    is_terminator(c) || c == '\n'
}

/// Index of the last mark among the first `m` characters of `w`, or -1.
pub open spec fn last_mark(w: Seq<char>, m: int) -> int
    decreases m,
{
    if m <= 0 {
        -1
    } else if is_mark(w[m - 1]) {
        m - 1
    } else {
        last_mark(w, m - 1)
    }
}

pub proof fn lemma_last_mark(w: Seq<char>, m: int)
    ensures
        m <= 0 ==> last_mark(w, m) == -1,
        m > 0 ==> -1 <= last_mark(w, m) < m,
        last_mark(w, m) >= 0 ==> is_mark(w[last_mark(w, m)]),
        forall|i: int| last_mark(w, m) < i < m ==> !is_mark(#[trigger] w[i]),
    decreases m,
{
    if m > 0 && !is_mark(w[m - 1]) {
        lemma_last_mark(w, m - 1);
    }
}

/// Length of the segment that the splitter cuts from the front of `w` when it
/// may look at the first `m` characters only (the window).
///
/// The last mark of the window is examined: a terminator that ends the window
/// is dropped and the search repeats; a mark at the very start gives up and
/// keeps the whole window; a terminator followed by whitespace is a cut after
/// that whitespace; a newline preceded by a newline (a paragraph break) is a cut
/// after it; any other candidate is rejected and the search repeats on the
/// window ending just before it. A window without marks is kept whole.
pub open spec fn segment_end(w: Seq<char>, m: int) -> int
    decreases m,
{
    if m <= 1 {
        m
    } else {
        let v = last_mark(w, m);
        proof {
            lemma_last_mark(w, m);
        }
        if v < 0 {
            m
        } else if v == m - 1 && w[v] != '\n' {
            segment_end(w, m - 1)
        } else if v == 0 {
            m
        } else if is_terminator(w[v]) {
            if white_space(w[v + 1]) {
                v + 2
            } else {
                segment_end(w, v)
            }
        } else if w[v - 1] == '\n' {
            v + 1
        } else {
            segment_end(w, v)
        }
    }
}

pub proof fn lemma_segment_end_bounds(w: Seq<char>, m: int)
    requires
        m >= 1,
    ensures
        1 <= segment_end(w, m) <= m,
    decreases m,
{
    lemma_last_mark(w, m);
    let v = last_mark(w, m);
    if m > 1 && v >= 0 {
        if v == m - 1 && w[v] != '\n' {
            lemma_segment_end_bounds(w, m - 1);
        } else if v != 0 {
            lemma_segment_end_bounds(w, v);
        }
    }
}

/// The characters of `t` from `start` on.
pub open spec fn suffix(t: Seq<char>, start: int) -> Seq<char> {
    t.subrange(start, t.len() as int)
}

pub(crate) fn chars_of(text: &str) -> (r: Vec<char>)
    ensures
        r@ == text@,
{
    let mut v: Vec<char> = Vec::new();
    for c in it: text.chars()
        invariant
            v@ == it.seq().take(it.index() as int),
    {
        v.push(c);
    }
    assert(v@ =~= text@);
    v
}

/// Offset from `start` of the last mark among `chars[start .. start + m]`.
fn find_last_mark(chars: &Vec<char>, start: usize, m: usize) -> (r: Option<usize>)
    requires
        start + m <= chars.len(),
    ensures
        match r {
            Some(v) => v as int == last_mark(suffix(chars@, start as int), m as int),
            None => last_mark(suffix(chars@, start as int), m as int) == -1,
        },
{
    let ghost w = suffix(chars@, start as int);
    let mut i: usize = m;
    while i > 0
        invariant
            i <= m,
            start + m <= chars.len(),
            w == suffix(chars@, start as int),
            last_mark(w, m as int) == last_mark(w, i as int),
        decreases i,
    {
        let c = chars[start + i - 1];
        assert(w[i - 1] == c);
        if c == '.' || c == '\n' || c == '!' || c == '?' {
            return Some(i - 1);
        }
        i = i - 1;
    }
    None
}

fn segment_end_at(chars: &Vec<char>, start: usize, window: usize) -> (r: usize)
    requires
        start + window <= chars.len(),
    ensures
        r as int == segment_end(suffix(chars@, start as int), window as int),
{
    let ghost w = suffix(chars@, start as int);
    let mut m: usize = window;
    loop
        invariant
            m <= window,
            start + window <= chars.len(),
            w == suffix(chars@, start as int),
            segment_end(w, window as int) == segment_end(w, m as int),
        decreases m,
    {
        if m <= 1 {
            return m;
        }
        proof {
            lemma_last_mark(w, m as int);
        }
        match find_last_mark(chars, start, m) {
            None => {
                return m;
            },
            Some(v) => {
                let c = chars[start + v];
                assert(w[v as int] == c);
                if v == m - 1 && c != '\n' {
                    m = m - 1;
                } else if v == 0 {
                    return m;
                } else if c == '.' || c == '!' || c == '?' {
                    let next = chars[start + v + 1];
                    assert(w[v + 1] == next);
                    if is_white_space(next) {
                        return v + 2;
                    }
                    m = v;
                } else {
                    let prev = chars[start + v - 1];
                    assert(w[v - 1] == prev);
                    if prev == '\n' {
                        return v + 1;
                    }
                    m = v;
                }
            },
        }
    }
}

/// Cuts the longest acceptable segment from the front of `text`, taking the
/// whole of `text` as the window, and returns it with its length in characters.
pub fn strip_trailing_sentence_stub(text: &str) -> (r: (&str, usize))
    ensures
        r.1 as int == segment_end(text@, text@.len() as int),
        r.0@ == text@.subrange(0, r.1 as int),
{
    let chars = chars_of(text);
    let n = chars.len();
    let end = segment_end_at(&chars, 0, n);
    assert(suffix(chars@, 0) =~= text@);
    if n >= 1 {
        proof {
            lemma_segment_end_bounds(text@, n as int);
        }
    }
    (text.substring_char(0, end), end)
}

/// Length of the window the sequencer hands to the splitter when `len`
/// characters remain.
pub open spec fn window_len(len: int, max: int) -> int {
    if len < max {
        len
    } else {
        max
    }
}

/// The segments of `t`, in order: starting at the front, each one is cut from
/// a window of at most `max` characters, and the next one starts where it ends.
pub open spec fn segments_of(t: Seq<char>, max: int) -> Seq<Seq<char>>
    decreases t.len(),
{
    if t.len() == 0 || max <= 0 {
        Seq::empty()
    } else {
        let w = window_len(t.len() as int, max);
        let r = segment_end(t, w);
        proof {
            lemma_segment_end_bounds(t, w);
        }
        seq![t.subrange(0, r)].add(segments_of(suffix(t, r), max))
    }
}

/// Cuts `text` into consecutive segments of at most `max_segment_length`
/// characters, each ending at a sentence or paragraph boundary where its window
/// holds one.
pub fn segments<'a>(text: &'a str, max_segment_length: usize) -> (r: Vec<&'a str>)
    requires
        max_segment_length >= 1,
    ensures
        r@.map_values(|s: &str| s@) == segments_of(text@, max_segment_length as int),
{
    let chars = chars_of(text);
    let n = chars.len();
    let ghost max = max_segment_length as int;
    let mut out: Vec<&'a str> = Vec::new();
    let mut cursor: usize = 0;
    proof {
        assert(suffix(text@, 0) =~= text@);
        assert(out@.map_values(|s: &str| s@) + segments_of(text@, max) =~= segments_of(text@, max));
    }
    while cursor < n
        invariant
            cursor <= n,
            n == chars.len(),
            chars@ == text@,
            max == max_segment_length,
            max >= 1,
            out@.map_values(|s: &str| s@) + segments_of(suffix(text@, cursor as int), max)
                == segments_of(text@, max),
        decreases n - cursor,
    {
        let rest = n - cursor;
        let window = if rest < max_segment_length {
            rest
        } else {
            max_segment_length
        };
        let len = segment_end_at(&chars, cursor, window);
        let ghost t = suffix(text@, cursor as int);
        let ghost before = out@.map_values(|s: &str| s@);
        proof {
            lemma_segment_end_bounds(t, window as int);
            assert(suffix(t, len as int) =~= suffix(text@, cursor + len));
        }
        let piece = text.substring_char(cursor, cursor + len);
        proof {
            assert(piece@ =~= t.subrange(0, len as int));
        }
        out.push(piece);
        proof {
            assert(out@.map_values(|s: &str| s@) =~= before.push(piece@));
            assert(before.push(piece@) + segments_of(suffix(text@, cursor + len), max) =~= before
                + segments_of(t, max));
        }
        cursor = cursor + len;
    }
    proof {
        assert(out@.map_values(|s: &str| s@) + segments_of(suffix(text@, n as int), max)
            =~= out@.map_values(|s: &str| s@));
    }
    out
}

/// Joining the segments of a text in order gives back exactly that text: no
/// character is lost, repeated or moved.
pub proof fn lemma_segments_reassemble(text: Seq<char>, max: int)
    requires
        max >= 1,
    ensures
        segments_of(text, max).flatten() == text,
    decreases text.len(),
{
    if text.len() > 0 {
        let w = window_len(text.len() as int, max);
        lemma_segment_end_bounds(text, w);
        let r = segment_end(text, w);
        lemma_segments_reassemble(suffix(text, r), max);
        let s = segments_of(text, max);
        assert(s.drop_first() =~= segments_of(suffix(text, r), max));
        assert(text =~= text.subrange(0, r) + suffix(text, r));
    }
}

/// Every segment holds at least one and at most `max` characters.
pub proof fn lemma_segment_lengths(text: Seq<char>, max: int)
    requires
        max >= 1,
    ensures
        forall|i: int|
            0 <= i < segments_of(text, max).len() ==> 1 <= #[trigger] segments_of(text, max)[i].len()
                <= max,
    decreases text.len(),
{
    if text.len() > 0 {
        let w = window_len(text.len() as int, max);
        lemma_segment_end_bounds(text, w);
        let r = segment_end(text, w);
        lemma_segments_reassemble(suffix(text, r), max);
        lemma_segment_lengths(suffix(text, r), max);
        let s = segments_of(text, max);
        assert forall|i: int| 0 <= i < s.len() implies 1 <= #[trigger] s[i].len() <= max by {
            if i > 0 {
                assert(s[i] == segments_of(suffix(text, r), max)[i - 1]);
            }
        }
    }
}

/// A cut after the first `p` characters of `w` ends a sentence (a terminator
/// past the first character, then whitespace) or a paragraph (two newlines,
/// the second past the first character).
pub open spec fn is_boundary_cut(w: Seq<char>, p: int) -> bool {
    ||| p >= 3 && is_terminator(w[p - 2]) && white_space(w[p - 1])
    ||| p >= 2 && w[p - 1] == '\n' && w[p - 2] == '\n'
}

/// Within a window with no terminator directly followed by a newline, the
/// splitter cuts at the last sentence or paragraph boundary of the window
/// whenever there is one.
pub proof fn lemma_cut_at_last_boundary(w: Seq<char>, m: int)
    requires
        1 <= m <= w.len(),
        forall|i: int| 0 <= i < m - 1 && #[trigger] is_terminator(w[i]) ==> w[i + 1] != '\n',
    ensures
        forall|p: int| 1 <= p <= m && #[trigger] is_boundary_cut(w, p) ==> p <= segment_end(w, m),
        (exists|p: int| 1 <= p <= m && #[trigger] is_boundary_cut(w, p)) ==> is_boundary_cut(
            w,
            segment_end(w, m),
        ),
    decreases m,
{
    lemma_last_mark(w, m);
    let v = last_mark(w, m);
    if m == 1 {
    } else if v < 0 {
        assert forall|p: int| 1 <= p <= m implies !#[trigger] is_boundary_cut(w, p) by {
            if p >= 2 {
                assert(!is_mark(w[p - 1]));
                assert(!is_mark(w[p - 2]));
            }
        }
    } else if v == m - 1 && w[v] != '\n' {
        lemma_cut_at_last_boundary(w, m - 1);
        assert(!is_boundary_cut(w, m));
    } else if v == 0 {
        assert forall|p: int| 1 <= p <= m implies !#[trigger] is_boundary_cut(w, p) by {
            if p >= 2 {
                assert(!is_mark(w[p - 1]));
            }
            if p >= 3 {
                assert(!is_mark(w[p - 2]));
            }
        }
    } else {
        assert forall|p: int| v + 2 < p <= m implies !#[trigger] is_boundary_cut(w, p) by {
            assert(!is_mark(w[p - 1]));
            assert(!is_mark(w[p - 2]));
        }
        if is_terminator(w[v]) {
            if !white_space(w[v + 1]) {
                lemma_cut_at_last_boundary(w, v);
                assert(!is_boundary_cut(w, v + 1));
                assert(!is_boundary_cut(w, v + 2));
            }
        } else if w[v - 1] != '\n' {
            lemma_cut_at_last_boundary(w, v);
            assert(!is_boundary_cut(w, v + 1));
            if v + 2 <= m {
                assert(!is_boundary_cut(w, v + 2));
            }
        } else {
            if v + 2 <= m {
                assert(!is_boundary_cut(w, v + 2));
            }
        }
    }
}

/// The splitter never cuts right after a terminator, unless the segment is that
/// single character: a window that ends in the middle of `10.1`, or just after
/// `10.`, is not cut after the point.
pub proof fn lemma_no_cut_after_terminator(w: Seq<char>, m: int)
    requires
        1 <= m <= w.len(),
    ensures
        segment_end(w, m) >= 2 ==> !is_terminator(w[segment_end(w, m) - 1]),
    decreases m,
{
    lemma_last_mark(w, m);
    let v = last_mark(w, m);
    if m > 1 && v >= 0 {
        if v == m - 1 && w[v] != '\n' {
            lemma_no_cut_after_terminator(w, m - 1);
        } else if v == 0 {
            assert(!is_mark(w[m - 1]));
        } else if is_terminator(w[v]) {
            if !white_space(w[v + 1]) {
                lemma_no_cut_after_terminator(w, v);
            }
        } else if w[v - 1] != '\n' {
            lemma_no_cut_after_terminator(w, v);
        }
    } else if m > 1 {
        assert(!is_mark(w[m - 1]));
    }
}

} // verus!
