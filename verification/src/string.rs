//! A string is a collection too: helpers that shape text character by
//! character — squeezing duplicate runs, substituting marked positions,
//! seeking past whitespace, justifying a line to a width, word-wrapping,
//! and iterating over the bytes of each character.
use vstd::prelude::*;

verus! {

use vstd::string::StrSliceExecFns;
use vstd::string::StringExecFns;
use vstd::utf8::encode_utf8;

/// Whether `t` holds the character `c`.
fn str_contains_char(t: &str, c: char) -> (b: bool)
    ensures
        b == t@.contains(c),
{
    let n = t.unicode_len();
    for i in 0..n
        invariant
            n == t@.len(),
            forall|k: int| 0 <= k < i ==> t@[k] != c,
    {
        if t.get_char(i) == c {
            assert(t@[i as int] == c);
            return true;
        }
    }
    assert(!t@.contains(c)) by {
        if t@.contains(c) {
            let k = choose|k: int| 0 <= k < t@.len() && t@[k] == c;
            assert(t@[k] != c);
        }
    }
    false
}

/// A grapheme iterator that produces the bytes for each grapheme, one
/// character at a time.
pub struct GraphemeBytesIter<'a> {
    /// The text walked over.
    pub source: &'a str,
    /// The position of the next character to hand out.
    pub offset: usize,
    /// How many characters have been handed out.
    pub grapheme_count: usize,
}

impl<'a> GraphemeBytesIter<'a> {
    /// Creates a new grapheme iterator from a string source.
    pub fn new(source: &'a str) -> (r: GraphemeBytesIter<'a>)
        ensures
            r.source == source,
            r.offset == 0,
            r.grapheme_count == 0,
    {
        GraphemeBytesIter { source, offset: 0, grapheme_count: 0 }
    }

    /// The bytes of the next character, or `None` past the end.
    pub fn next(&mut self) -> (r: Option<Vec<u8>>)
        ensures
            final(self).source == old(self).source,
            old(self).offset < old(self).source@.len() ==> final(self).offset == old(self).offset
                + 1 && final(self).grapheme_count == final(self).offset,
            old(self).offset >= old(self).source@.len() ==> *final(self) == *old(self),
            match r {
                Option::Some(bytes) => old(self).offset < old(self).source@.len() && bytes@
                    == encode_utf8(seq![old(self).source@[old(self).offset as int]]),
                Option::None => old(self).offset >= old(self).source@.len(),
            },
    {
        let n = self.source.unicode_len();
        if self.offset < n {
            let piece = self.source.substring_char(self.offset, self.offset + 1);
            let bytes = piece.as_bytes_vec();
            proof {
                assert(piece@ =~= seq![self.source@[self.offset as int]]);
            }
            self.offset = self.offset + 1;
            self.grapheme_count = self.offset;
            Some(bytes)
        } else {
            None
        }
    }

    /// How many characters the source holds in all.
    pub fn len(&self) -> (r: usize)
        ensures
            r == self.source@.len(),
    {
        self.source.unicode_len()
    }
}

/// ToGraphemeBytesIter — create an iterator over the bytes of each
/// character of a string.
pub trait ToGraphemeBytesIter<'a>: View<V = Seq<char>> {
    /// An iterator standing at the start of `self`.
    fn grapheme_bytes_iter(&'a self) -> (r: GraphemeBytesIter<'a>)
        ensures
            r.source@ == self@,
            r.offset == 0,
            r.grapheme_count == 0,
    ;
}

impl<'a> ToGraphemeBytesIter<'a> for str {
    fn grapheme_bytes_iter(&'a self) -> (r: GraphemeBytesIter<'a>) {
        GraphemeBytesIter::new(self)
    }
}

/// Whether position `j` of `s` survives squeezing: it differs from the
/// character before it, or stands outside the squeezed set. Position 0 is
/// compared against the NUL sentinel.
pub open spec fn squeeze_keep(s: Seq<char>, targets: Seq<char>, j: int) -> bool {
    let prev = if j == 0 {
        '\0'
    } else {
        s[j - 1]
    };
    s[j] != prev || (targets.len() > 0 && !targets.contains(s[j]))
}

/// `s` with every repeated character collapsed: a character equal to its
/// predecessor is dropped when `targets` is empty or holds it.
pub open spec fn squeeze_seq(s: Seq<char>, targets: Seq<char>) -> Seq<char>
    decreases s.len(),
{
    if s.len() == 0 {
        Seq::empty()
    } else if squeeze_keep(s, targets, s.len() - 1) {
        squeeze_seq(s.drop_last(), targets) + seq![s.last()]
    } else {
        squeeze_seq(s.drop_last(), targets)
    }
}

/// Squeeze — collapses runs of a repeated character down to one.
pub trait Squeeze: View<V = Seq<char>> {
    /// `self` with repeated characters collapsed; with an empty `targets`
    /// every character is squeezed, otherwise only those in `targets`.
    fn squeeze(&self, targets: &'static str) -> (r: String)
        ensures
            r@ == squeeze_seq(self@, targets@),
    ;
}

impl Squeeze for str {
    fn squeeze(&self, targets: &'static str) -> (r: String) {
        let mut out = String::new();
        let n = self.unicode_len();
        let mut prev: char = '\0';
        for i in 0..n
            invariant
                n == self@.len(),
                prev == (if i == 0 {
                    '\0'
                } else {
                    self@[i as int - 1]
                }),
                out@ == squeeze_seq(self@.take(i as int), targets@),
        {
            let c = self.get_char(i);
            let keep: bool = if c != prev {
                true
            } else if targets.is_empty() {
                false
            } else {
                !str_contains_char(targets, c)
            };
            if keep {
                let piece = self.substring_char(i, i + 1);
                out.append(piece);
                proof {
                    assert(piece@ =~= seq![self@[i as int]]);
                }
            }
            prev = c;
            proof {
                let t = self@.take(i as int + 1);
                assert(t.drop_last() =~= self@.take(i as int));
                assert(t.last() == self@[i as int]);
                assert(squeeze_keep(t, targets@, i as int) == keep);
            }
        }
        proof {
            assert(self@.take(n as int) =~= self@);
        }
        out
    }
}

/// Whether some member of `marks` equals `j`.
pub open spec fn has_mark(marks: Seq<int>, j: int) -> bool {
    exists|k: int| 0 <= k < marks.len() && marks[k] == j
}

/// `s` with the character at each marked position replaced by the whole of
/// `chr`.
pub open spec fn subst_marks_seq(s: Seq<char>, marks: Seq<int>, chr: Seq<char>) -> Seq<char>
    decreases s.len(),
{
    if s.len() == 0 {
        Seq::empty()
    } else if has_mark(marks, s.len() - 1) {
        subst_marks_seq(s.drop_last(), marks, chr) + chr
    } else {
        subst_marks_seq(s.drop_last(), marks, chr) + seq![s.last()]
    }
}

/// Whether `v` holds the value `x`.
fn vec_contains_usize(v: &Vec<usize>, x: usize) -> (b: bool)
    ensures
        b == has_mark(v@.map_values(|u: usize| u as int), x as int),
{
    let n = v.len();
    let ghost marks = v@.map_values(|u: usize| u as int);
    for k in 0..n
        invariant
            n == v@.len(),
            marks == v@.map_values(|u: usize| u as int),
            forall|k2: int| 0 <= k2 < k ==> marks[k2] != x as int,
    {
        if v[k] == x {
            assert(marks[k as int] == x as int);
            return true;
        }
    }
    assert(!has_mark(marks, x as int)) by {
        if has_mark(marks, x as int) {
            let k2 = choose|k2: int| 0 <= k2 < marks.len() && marks[k2] == x as int;
            assert(marks[k2] != x as int);
        }
    }
    false
}

/// Substitute a string in for the character at each index given.
pub trait SubstMarks: View<V = Seq<char>> {
    /// `self` with the character at each position in `marks` replaced by
    /// `chr`.
    fn subst_marks(&self, marks: Vec<usize>, chr: &'static str) -> (r: String)
        ensures
            r@ == subst_marks_seq(self@, marks@.map_values(|u: usize| u as int), chr@),
    ;
}

impl SubstMarks for str {
    fn subst_marks(&self, marks: Vec<usize>, chr: &'static str) -> (r: String) {
        let mut out = String::new();
        let n = self.unicode_len();
        let ghost mseq = marks@.map_values(|u: usize| u as int);
        for i in 0..n
            invariant
                n == self@.len(),
                mseq == marks@.map_values(|u: usize| u as int),
                out@ == subst_marks_seq(self@.take(i as int), mseq, chr@),
        {
            if vec_contains_usize(&marks, i) {
                out.append(chr);
            } else {
                let piece = self.substring_char(i, i + 1);
                out.append(piece);
                proof {
                    assert(piece@ =~= seq![self@[i as int]]);
                }
            }
            proof {
                let t = self@.take(i as int + 1);
                assert(t.drop_last() =~= self@.take(i as int));
                assert(t.last() == self@[i as int]);
            }
        }
        proof {
            assert(self@.take(n as int) =~= self@);
        }
        out
    }
}

/// After whitespace.
pub trait AfterWhitespace: View<V = Seq<char>> {
    /// Seeks from `offset` to the first character that is not a space,
    /// counting from `offset`; `None` when only spaces remain, or when
    /// `offset` lies beyond the text.
    fn seek_end_of_whitespace(&self, offset: usize) -> (r: Option<usize>)
        ensures
            match r {
                Option::Some(k) => offset + k < self@.len() && self@[offset + k as int] != ' '
                    && (forall|m: int| offset <= m < offset + k ==> self@[m] == ' '),
                Option::None => self@.len() < offset || (forall|m: int|
                    offset <= m < self@.len() ==> self@[m] == ' '),
            },
    ;
}

impl AfterWhitespace for str {
    fn seek_end_of_whitespace(&self, offset: usize) -> (r: Option<usize>) {
        let n = self.unicode_len();
        if n < offset {
            return None;
        }
        for idx in offset..n
            invariant
                offset <= idx <= n,
                n == self@.len(),
                forall|m: int| offset <= m < idx ==> self@[m] == ' ',
        {
            let c = self.get_char(idx);
            if c != ' ' {
                return Some(idx - offset);
            }
        }
        None
    }
}

/// Whether `c` carries the White_Space property that trimming and word
/// splitting go by.
pub open spec fn is_space_char(c: char) -> bool {
    let u = c as u32;
    u == 0x20 || u == 0x09 || u == 0x0a || u == 0x0b || u == 0x0c || u == 0x0d || u == 0x85 || u
        == 0xa0 || u == 0x1680 || (0x2000 <= u && u <= 0x200a) || u == 0x2028 || u == 0x2029 || u
        == 0x202f || u == 0x205f || u == 0x3000
}

/// Executable test for `is_space_char`.
fn char_is_space(c: char) -> (b: bool)
    ensures
        b == is_space_char(c),
{
    let u = c as u32;
    u == 0x20 || u == 0x09 || u == 0x0a || u == 0x0b || u == 0x0c || u == 0x0d || u == 0x85 || u
        == 0xa0 || u == 0x1680 || (0x2000 <= u && u <= 0x200a) || u == 0x2028 || u == 0x2029 || u
        == 0x202f || u == 0x205f || u == 0x3000
}

/// The first position at or after `i` holding a non-space character, or
/// the length of `s`.
pub open spec fn leading_ws(s: Seq<char>, i: int) -> int
    decreases s.len() - i,
{
    if i < 0 || i >= s.len() {
        s.len() as int
    } else if !is_space_char(s[i]) {
        i
    } else {
        leading_ws(s, i + 1)
    }
}

/// One past the last non-space character strictly before position `j`, or
/// zero when only spaces stand there.
pub open spec fn trailing_ws(s: Seq<char>, j: int) -> int
    decreases j,
{
    if j <= 0 || j > s.len() {
        0
    } else if !is_space_char(s[j - 1]) {
        j
    } else {
        trailing_ws(s, j - 1)
    }
}

/// `s` without its leading and trailing whitespace.
pub open spec fn trim_spec(s: Seq<char>) -> Seq<char> {
    let a = leading_ws(s, 0);
    let b = trailing_ws(s, s.len() as int);
    if a < b {
        s.subrange(a, b)
    } else {
        Seq::empty()
    }
}

/// The whitespace-separated words of `s` from position `i` on, with `cur`
/// the partial word read so far.
pub open spec fn split_ws_acc(s: Seq<char>, i: int, cur: Seq<char>) -> Seq<Seq<char>>
    decreases s.len() - i,
{
    if i < 0 || i >= s.len() {
        if cur.len() > 0 {
            seq![cur]
        } else {
            Seq::empty()
        }
    } else if is_space_char(s[i]) {
        if cur.len() > 0 {
            seq![cur] + split_ws_acc(s, i + 1, Seq::empty())
        } else {
            split_ws_acc(s, i + 1, Seq::empty())
        }
    } else {
        split_ws_acc(s, i + 1, cur.push(s[i]))
    }
}

/// The whitespace-separated words of `s`.
pub open spec fn split_ws(s: Seq<char>) -> Seq<Seq<char>> {
    split_ws_acc(s, 0, Seq::empty())
}

/// A run of `n` spaces.
pub open spec fn spaces(n: int) -> Seq<char>
    decreases n,
{
    if n <= 0 {
        Seq::empty()
    } else {
        spaces(n - 1).push(' ')
    }
}

/// The words laid out left to right: each gap holds one space more than
/// `div`, and the first `rem` gaps hold one more still.
pub open spec fn lay_out(words: Seq<Seq<char>>, div: int, rem: int) -> Seq<char>
    decreases words.len(),
{
    if words.len() == 0 {
        Seq::empty()
    } else if words.len() == 1 {
        words[0]
    } else {
        let gap = 1 + div + (if rem > 0 {
            1int
        } else {
            0int
        });
        words[0] + spaces(gap) + lay_out(
            words.drop_first(),
            div,
            if rem > 0 {
                rem - 1
            } else {
                0
            },
        )
    }
}

/// The line justified to `width`: the trimmed words, with the extra width
/// shared out over the gaps, earlier gaps first. A line that is empty,
/// already as wide as `width`, or a single word comes back unchanged.
pub open spec fn justified_line(s: Seq<char>, width: int) -> Seq<char> {
    let t = trim_spec(s);
    if s.len() == 0 {
        s
    } else if t.len() >= width {
        s
    } else {
        let words = split_ws(t);
        if words.len() <= 1 {
            s
        } else {
            let gaps = words.len() - 1;
            let diff = width - t.len();
            lay_out(words, diff / gaps, diff % gaps)
        }
    }
}

/// Justify — expand a line to a given width.
pub trait Justify: View<V = Seq<char>> {
    /// The line justified to `width` by widening the gaps between its
    /// words. A line of nothing but whitespace is not accepted beside a
    /// positive width.
    fn justify_line(&self, width: usize) -> (r: String)
        requires
            self@.len() > 0 && trim_spec(self@).len() == 0 ==> width == 0,
        ensures
            r@ == justified_line(self@, width as int),
    ;
}

impl Justify for str {
    fn justify_line(&self, width: usize) -> (r: String) {
        let n = self.unicode_len();
        if n == 0 {
            return self.to_owned();
        }
        let mut a: usize = 0;
        while a < n && char_is_space(self.get_char(a))
            invariant
                a <= n,
                n == self@.len(),
                leading_ws(self@, 0) == leading_ws(self@, a as int),
            decreases n - a,
        {
            a += 1;
        }
        let mut b: usize = n;
        while b > 0 && char_is_space(self.get_char(b - 1))
            invariant
                b <= n,
                n == self@.len(),
                trailing_ws(self@, n as int) == trailing_ws(self@, b as int),
            decreases b,
        {
            b -= 1;
        }
        proof {
            assert(leading_ws(self@, a as int) == a || a == n && leading_ws(self@, a as int)
                == n);
            assert(trailing_ws(self@, b as int) == b);
        }
        let tstr = if a < b {
            self.substring_char(a, b)
        } else {
            self.substring_char(a, a)
        };
        proof {
            if a >= b {
                assert(tstr@ =~= Seq::<char>::empty());
            }
            assert(tstr@ == trim_spec(self@));
        }
        let tlen = tstr.unicode_len();
        if tlen >= width {
            return self.to_owned();
        }
        let m = tlen;
        let mut words: Vec<String> = Vec::new();
        let mut cur = String::new();
        proof {
            assert(words@.map_values(|w: String| w@) + split_ws_acc(tstr@, 0, cur@) =~= split_ws(
                tstr@,
            ));
        }
        for i in 0..m
            invariant
                m == tstr@.len(),
                split_ws(tstr@) == words@.map_values(|w: String| w@) + split_ws_acc(
                    tstr@,
                    i as int,
                    cur@,
                ),
        {
            let c = tstr.get_char(i);
            let ghost words0 = words@;
            let ghost cur0 = cur@;
            if char_is_space(c) {
                if !cur.as_str().is_empty() {
                    words.push(cur);
                    cur = String::new();
                    proof {
                        assert(split_ws_acc(tstr@, i as int, cur0) == seq![cur0] + split_ws_acc(
                            tstr@,
                            i as int + 1,
                            Seq::<char>::empty(),
                        ));
                        assert(words@.map_values(|w: String| w@) =~= words0.map_values(
                            |w: String| w@,
                        ).push(cur0));
                        assert(words0.map_values(|w: String| w@).push(cur0) + split_ws_acc(
                            tstr@,
                            i as int + 1,
                            Seq::<char>::empty(),
                        ) =~= words0.map_values(|w: String| w@) + (seq![cur0] + split_ws_acc(
                            tstr@,
                            i as int + 1,
                            Seq::<char>::empty(),
                        )));
                        assert(split_ws(tstr@) == words@.map_values(|w: String| w@)
                            + split_ws_acc(tstr@, i as int + 1, cur@));
                    }
                } else {
                    proof {
                        assert(cur0 =~= Seq::<char>::empty());
                        assert(split_ws_acc(tstr@, i as int, cur0) == split_ws_acc(
                            tstr@,
                            i as int + 1,
                            Seq::<char>::empty(),
                        ));
                    }
                }
            } else {
                let piece = tstr.substring_char(i, i + 1);
                cur.append(piece);
                proof {
                    assert(cur@ =~= cur0.push(tstr@[i as int]));
                    assert(split_ws_acc(tstr@, i as int, cur0) == split_ws_acc(
                        tstr@,
                        i as int + 1,
                        cur0.push(tstr@[i as int]),
                    ));
                }
            }
        }
        if !cur.as_str().is_empty() {
            let ghost words0 = words@;
            let ghost cur0 = cur@;
            words.push(cur);
            proof {
                assert(words@.map_values(|w: String| w@) =~= words0.map_values(
                    |w: String| w@,
                ).push(cur0));
                assert(words0.map_values(|w: String| w@).push(cur0) =~= words0.map_values(
                    |w: String| w@,
                ) + seq![cur0]);
            }
        }
        proof {
            assert(words@.map_values(|w: String| w@) + Seq::<Seq<char>>::empty() =~= words@
                .map_values(|w: String| w@));
            assert(split_ws(tstr@) == words@.map_values(|w: String| w@));
        }
        let wcount = words.len();
        if wcount <= 1 {
            return self.to_owned();
        }
        let gaps = wcount - 1;
        proof {
            if tstr@.len() == 0 {
                assert(split_ws(tstr@) == Seq::<Seq<char>>::empty());
                assert(false);
            }
        }
        let diff = width - tlen;
        let div = diff / gaps;
        let rem0 = diff % gaps;
        let mut rem = rem0;
        proof {
            assert(div <= diff) by (nonlinear_arith)
                requires
                    gaps >= 1,
                    diff >= 0,
                    div == diff / gaps,
            ;
        }
        let ghost wviews = words@.map_values(|w: String| w@);
        let mut out = String::new();
        proof {
            assert(wviews.skip(0) =~= wviews);
            assert(out@ + lay_out(wviews, div as int, rem as int) =~= lay_out(
                wviews,
                div as int,
                rem as int,
            ));
        }
        for k in 0..wcount
            invariant
                wcount == words@.len(),
                wcount >= 2,
                wviews == words@.map_values(|w: String| w@),
                div == diff / gaps,
                div < usize::MAX,
                lay_out(wviews, div as int, rem0 as int) == out@ + lay_out(
                    wviews.skip(k as int),
                    div as int,
                    rem as int,
                ),
        {
            out.append(words[k].as_str());
            proof {
                assert(wviews[k as int] == words@[k as int]@);
            }
            let val: usize;
            if rem > 0 {
                rem = rem - 1;
                val = div + 1;
            } else {
                val = div;
            }
            let ghost rest = wviews.skip(k as int);
            if k < wcount - 1 {
                let ghost out1 = out@;
                out.append(" ");
                proof {
                    reveal_strlit(" ");
                    assert(" "@ =~= seq![' ']);
                    assert(out1 + spaces(1) =~= (out1 + spaces(0)).push(' '));
                    assert(out1 + spaces(0) =~= out1);
                }
                for sp in 0..val
                    invariant
                        out@ == out1 + spaces(1 + sp as int),
                {
                    out.append(" ");
                    proof {
                        reveal_strlit(" ");
                        assert(" "@ =~= seq![' ']);
                        assert(out1 + spaces(1 + sp as int + 1) =~= (out1 + spaces(
                            1 + sp as int,
                        )).push(' '));
                    }
                }
                proof {
                    assert(rest.len() >= 2);
                    assert(rest[0] == wviews[k as int]);
                    assert(rest.drop_first() =~= wviews.skip(k as int + 1));
                }
            } else {
                proof {
                    assert(rest.len() == 1);
                    assert(rest[0] == wviews[k as int]);
                    assert(wviews.skip(k as int + 1) =~= Seq::<Seq<char>>::empty());
                    assert(out@ + Seq::<char>::empty() =~= out@);
                }
            }
        }
        proof {
            assert(justified_line(self@, width as int) == lay_out(
                wviews,
                div as int,
                rem0 as int,
            ));
        }
        out
    }
}

/// The largest position in `[from, to)` holding `c`, or `from - 1` when
/// none does.
pub open spec fn last_pos(s: Seq<char>, from: int, to: int, c: char) -> int
    decreases to - from,
{
    if to <= from {
        from - 1
    } else if s[to - 1] == c {
        to - 1
    } else {
        last_pos(s, from, to - 1, c)
    }
}

/// Bounds of `last_pos`, and that it lands on `c` when it finds one.
proof fn lemma_last_pos_bounds(s: Seq<char>, from: int, to: int, c: char)
    requires
        from <= to,
    ensures
        from - 1 <= last_pos(s, from, to, c) < to,
        last_pos(s, from, to, c) >= from ==> s[last_pos(s, from, to, c)] == c,
    decreases to - from,
{
    if to > from && s[to - 1] != c {
        lemma_last_pos_bounds(s, from, to - 1, c);
    }
}

/// The first position at or after `pos` holding something other than a
/// plain space, or the length of `s`.
pub open spec fn run_end(s: Seq<char>, pos: int) -> int
    decreases s.len() - pos,
{
    if pos < 0 || pos >= s.len() {
        s.len() as int
    } else if s[pos] != ' ' {
        pos
    } else {
        run_end(s, pos + 1)
    }
}

/// Bounds of `run_end`: it stands past a run of spaces, on a non-space or
/// at the end.
proof fn lemma_run_end_bounds(s: Seq<char>, pos: int)
    requires
        0 <= pos <= s.len(),
    ensures
        pos <= run_end(s, pos) <= s.len(),
        run_end(s, pos) < s.len() ==> s[run_end(s, pos)] != ' ',
        forall|m: int| pos <= m < run_end(s, pos) ==> s[m] == ' ',
    decreases s.len() - pos,
{
    if pos < s.len() && s[pos] == ' ' {
        lemma_run_end_bounds(s, pos + 1);
    }
}

/// Where the wrap point lands once a space at `sp` is chosen: the end of
/// the whitespace run around it, when the window stops short of the text's
/// end and more text follows the run.
pub open spec fn wrap_eows(s: Seq<char>, chunk: int, offset: int, sp: int) -> int {
    if offset + chunk < s.len() {
        let re = run_end(s, sp);
        if re < s.len() {
            re - 1
        } else {
            sp
        }
    } else {
        sp
    }
}

/// The positions where wrapping breaks the text: walk a window of `chunk`
/// characters from `offset`; past a newline of the window start over
/// behind it; otherwise break at the last space of the window — widened to
/// the end of its whitespace run — and mark it when ordinary text follows;
/// without a space, slide forward one character until the window reaches
/// the end of the text.
pub open spec fn wrap_markers(s: Seq<char>, chunk: int, offset: int) -> Seq<int>
    decreases s.len() - offset,
    when 0 <= offset && 1 <= chunk
    via wrap_markers_decreases
{
    if offset > s.len() {
        Seq::empty()
    } else {
        let hi = if offset + chunk < s.len() {
            offset + chunk
        } else {
            s.len() as int
        };
        let nl = last_pos(s, offset, hi, '\n');
        if nl >= offset {
            wrap_markers(s, chunk, nl + 1)
        } else {
            let sp = last_pos(s, offset, hi, ' ');
            if sp >= offset {
                let eows = wrap_eows(s, chunk, offset, sp);
                if offset + chunk < s.len() && s[eows + 1] != '\n' && s[eows + 1] != ' ' {
                    seq![eows] + wrap_markers(s, chunk, eows + 1)
                } else {
                    wrap_markers(s, chunk, eows + 1)
                }
            } else {
                if offset + chunk < s.len() {
                    wrap_markers(s, chunk, offset + 1)
                } else {
                    Seq::empty()
                }
            }
        }
    }
}

#[via_fn]
proof fn wrap_markers_decreases(s: Seq<char>, chunk: int, offset: int) {
    if offset <= s.len() {
        let hi = if offset + chunk < s.len() {
            offset + chunk
        } else {
            s.len() as int
        };
        lemma_last_pos_bounds(s, offset, hi, '\n');
        let nl = last_pos(s, offset, hi, '\n');
        if nl < offset {
            lemma_last_pos_bounds(s, offset, hi, ' ');
            let sp = last_pos(s, offset, hi, ' ');
            if sp >= offset {
                lemma_run_end_bounds(s, sp);
                if offset + chunk < s.len() {
                    lemma_run_end_bounds(s, sp + 1);
                }
            }
        }
    }
}

/// The largest position in `[from, to)` of `s` holding `c`.
fn rfind_in(s: &str, from: usize, to: usize, c: char) -> (r: Option<usize>)
    requires
        from <= to <= s@.len(),
    ensures
        match r {
            Option::Some(k) => from <= k < to && last_pos(s@, from as int, to as int, c)
                == k as int && s@[k as int] == c,
            Option::None => last_pos(s@, from as int, to as int, c) == from as int - 1,
        },
{
    let mut kk = to;
    while kk > from
        invariant
            from <= kk <= to,
            to <= s@.len(),
            last_pos(s@, from as int, to as int, c) == last_pos(s@, from as int, kk as int, c),
        decreases kk,
    {
        let ch = s.get_char(kk - 1);
        if ch == c {
            return Some(kk - 1);
        }
        kk = kk - 1;
    }
    None
}

/// The first position at or after `pos` of `s` holding something other
/// than a plain space, or the length of `s`.
fn find_run_end(s: &str, pos: usize) -> (r: usize)
    requires
        pos <= s@.len(),
    ensures
        r == run_end(s@, pos as int),
{
    let n = s.unicode_len();
    let mut k = pos;
    while k < n
        invariant
            pos <= k <= n,
            n == s@.len(),
            run_end(s@, pos as int) == run_end(s@, k as int),
        decreases n - k,
    {
        let ch = s.get_char(k);
        if ch != ' ' {
            return k;
        }
        k = k + 1;
    }
    n
}

/// Word wrapping. Whitespace is treated as valid content: a newline only
/// ever replaces the last white space character at the end of the given
/// width, so lines may carry trailing whitespace beyond that width.
pub trait WordWrap: View<V = Seq<char>> {
    /// The text with a newline swapped in at each computed wrap position.
    fn word_wrap(&self, width: usize) -> (r: String)
        requires
            self@.len() + width + 1 <= usize::MAX,
        ensures
            r@ == subst_marks_seq(self@, wrap_markers(self@, width as int + 1, 0), "\n"@),
    ;
}

impl WordWrap for str {
    fn word_wrap(&self, width: usize) -> (r: String) {
        let n = self.unicode_len();
        let chunk = width + 1;
        let ghost chunki = chunk as int;
        let mut markers: Vec<usize> = Vec::new();
        let mut offset: usize = 0;
        proof {
            assert(markers@.map_values(|u: usize| u as int) + wrap_markers(self@, chunki, 0)
                =~= wrap_markers(self@, chunki, 0));
        }
        loop
            invariant
                offset <= n,
                n == self@.len(),
                chunk == width + 1,
                chunki == chunk as int,
                n + chunk <= usize::MAX,
                wrap_markers(self@, chunki, 0) == markers@.map_values(|u: usize| u as int)
                    + wrap_markers(self@, chunki, offset as int),
            decreases n - offset,
        {
            let hi = if offset + chunk < n {
                offset + chunk
            } else {
                n
            };
            match rfind_in(self, offset, hi, '\n') {
                Option::Some(nlp) => {
                    proof {
                        assert(wrap_markers(self@, chunki, offset as int) == wrap_markers(
                            self@,
                            chunki,
                            nlp as int + 1,
                        ));
                    }
                    offset = nlp + 1;
                },
                Option::None => {
                    match rfind_in(self, offset, hi, ' ') {
                        Option::Some(spp) => {
                            let eows: usize;
                            if offset + chunk < n {
                                proof {
                                    assert(run_end(self@, spp as int) == run_end(
                                        self@,
                                        spp as int + 1,
                                    ));
                                    lemma_run_end_bounds(self@, spp as int + 1);
                                }
                                let re = find_run_end(self, spp);
                                if re < n {
                                    eows = re - 1;
                                } else {
                                    eows = spp;
                                }
                            } else {
                                eows = spp;
                            }
                            proof {
                                assert(eows as int == wrap_eows(
                                    self@,
                                    chunki,
                                    offset as int,
                                    spp as int,
                                ));
                            }
                            let marked: bool;
                            if offset + chunk < n {
                                let cnext = self.get_char(eows + 1);
                                marked = cnext != '\n' && cnext != ' ';
                            } else {
                                marked = false;
                            }
                            let ghost mk0 = markers@.map_values(|u: usize| u as int);
                            if marked {
                                markers.push(eows);
                            }
                            proof {
                                if marked {
                                    assert(wrap_markers(self@, chunki, offset as int) == seq![
                                        eows as int,
                                    ] + wrap_markers(self@, chunki, eows as int + 1));
                                    assert(markers@.map_values(|u: usize| u as int)
                                        =~= mk0.push(eows as int));
                                    assert(mk0 + (seq![eows as int] + wrap_markers(
                                        self@,
                                        chunki,
                                        eows as int + 1,
                                    )) =~= mk0.push(eows as int) + wrap_markers(
                                        self@,
                                        chunki,
                                        eows as int + 1,
                                    ));
                                } else {
                                    assert(wrap_markers(self@, chunki, offset as int)
                                        == wrap_markers(self@, chunki, eows as int + 1));
                                }
                            }
                            offset = eows + 1;
                        },
                        Option::None => {
                            if offset + chunk < n {
                                proof {
                                    assert(wrap_markers(self@, chunki, offset as int)
                                        == wrap_markers(self@, chunki, offset as int + 1));
                                }
                                offset = offset + 1;
                            } else {
                                proof {
                                    assert(wrap_markers(self@, chunki, offset as int)
                                        == Seq::<int>::empty());
                                    assert(markers@.map_values(|u: usize| u as int)
                                        + Seq::<int>::empty() =~= markers@.map_values(
                                        |u: usize| u as int,
                                    ));
                                }
                                return self.subst_marks(markers, "\n");
                            }
                        },
                    }
                },
            }
        }
    }
}

} // verus!
