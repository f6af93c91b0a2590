//! Character-sequence operations used throughout the library.
//!
//! Every operation works on `char` slices and is specified over `Seq<char>`
//! by a spec function that states the operation directly: line splitting
//! with optional `\r\n` endings, Unicode-whitespace trimming, left-to-right
//! non-overlapping replacement, splitting on a separator, ASCII
//! case-insensitive equality and UTF-8 byte length.

use vstd::prelude::*;

verus! {

// ---------------------------------------------------------------------------
// Trusted items of std
// ---------------------------------------------------------------------------

/// `String::push` appends one character to the end of the string.
pub assume_specification[ String::push ](s: &mut String, ch: char)
    ensures
        final(s)@ == old(s)@.push(ch),
;

/// The full Unicode lowercase mapping that `str::to_lowercase` applies.
pub uninterp spec fn unicode_lowercase(s: Seq<char>) -> Seq<char>;

/// Calls `str::to_lowercase`. The contract only names its result: it is the
/// Unicode lowercase mapping of the argument, a function of the argument
/// alone. What the mapping does to each character is left unsaid here.
#[verifier::external_body]
pub(crate) fn to_lowercase(s: &str) -> (r: String)
    ensures
        r@ == unicode_lowercase(s@),
{
    s.to_lowercase()
}

// ---------------------------------------------------------------------------
// Conversions between strings and character vectors
// ---------------------------------------------------------------------------

/// The views of a sequence of character vectors.
pub open spec fn views(v: Seq<Vec<char>>) -> Seq<Seq<char>> {
    v.map_values(|x: Vec<char>| x@)
}

/// The characters of a string slice, in order.
pub fn chars_of(s: &str) -> (r: Vec<char>)
    ensures
        r@ == s@,
{
    let mut r: Vec<char> = Vec::new();
    for c in it: s.chars()
        invariant
            r@ == it.seq().take(it.index() as int),
            it.seq() == s@,
            r@.len() == it.index(),
    {
        r.push(c);
    }
    r
}

/// A `String` holding exactly the given characters.
pub fn string_of(cs: &[char]) -> (r: String)
    ensures
        r@ == cs@,
{
    let mut r = String::new();
    let mut i: usize = 0;
    while i < cs.len()
        invariant
            i <= cs.len(),
            r@ == cs@.take(i as int),
        decreases cs.len() - i,
    {
        r.push(cs[i]);
        i = i + 1;
        assert(r@ =~= cs@.take(i as int));
    }
    assert(cs@.take(cs.len() as int) =~= cs@);
    r
}

/// Appends the characters of `x` to `out`.
pub fn append_chars(out: &mut Vec<char>, x: &[char])
    ensures
        final(out)@ == old(out)@ + x@,
{
    let ghost start = out@;
    let mut i: usize = 0;
    while i < x.len()
        invariant
            i <= x.len(),
            out@ == start + x@.take(i as int),
        decreases x.len() - i,
    {
        out.push(x[i]);
        i = i + 1;
        assert(out@ =~= start + x@.take(i as int));
    }
    assert(x@.take(x.len() as int) =~= x@);
}

/// A copy of the given characters.
pub fn copy_chars(x: &[char]) -> (r: Vec<char>)
    ensures
        r@ == x@,
{
    let mut r: Vec<char> = Vec::new();
    append_chars(&mut r, x);
    assert(r@ =~= x@);
    r
}

// ---------------------------------------------------------------------------
// Equality, prefixes and substrings
// ---------------------------------------------------------------------------

/// `p` is a prefix of `s`.
pub open spec fn has_prefix(s: Seq<char>, p: Seq<char>) -> bool {
    p.len() <= s.len() && s.subrange(0, p.len() as int) == p
}

/// `p` occurs in `s` at some position.
pub open spec fn has_infix(s: Seq<char>, p: Seq<char>) -> bool {
    exists|i: int| 0 <= i && i + p.len() <= s.len() && #[trigger] s.subrange(i, i + p.len()) == p
}

/// The characters of `s` in `[lo, hi)` equal `p`.
pub fn range_eq(s: &[char], lo: usize, hi: usize, p: &[char]) -> (r: bool)
    requires
        lo <= hi <= s.len(),
    ensures
        r == (s@.subrange(lo as int, hi as int) == p@),
{
    if hi - lo != p.len() {
        return false;
    }
    let mut k: usize = 0;
    while k < p.len()
        invariant
            lo <= hi <= s.len(),
            hi - lo == p.len(),
            k <= p.len(),
            forall|j: int| 0 <= j < k ==> s@[lo + j] == p@[j],
        decreases p.len() - k,
    {
        if s[lo + k] != p[k] {
            assert(s@.subrange(lo as int, hi as int)[k as int] != p@[k as int]);
            return false;
        }
        k = k + 1;
    }
    assert(s@.subrange(lo as int, hi as int) =~= p@);
    true
}

/// The two character sequences are equal.
pub fn chars_eq(a: &[char], b: &[char]) -> (r: bool)
    ensures
        r == (a@ == b@),
{
    let r = range_eq(a, 0, a.len(), b);
    assert(a@.subrange(0, a.len() as int) =~= a@);
    r
}

/// The two strings are equal.
pub fn str_eq(a: &str, b: &str) -> (r: bool)
    ensures
        r == (a@ == b@),
{
    let x = chars_of(a);
    let y = chars_of(b);
    chars_eq(&x, &y)
}

/// `p` occurs in `s` starting at position `i`.
pub fn matches_at(s: &[char], i: usize, p: &[char]) -> (r: bool)
    requires
        i <= s.len(),
    ensures
        r == (p.len() <= s.len() - i && s@.subrange(i as int, i + p.len()) == p@),
{
    if p.len() > s.len() - i {
        false
    } else {
        range_eq(s, i, i + p.len(), p)
    }
}

/// `s` starts with `p`.
pub fn starts_with(s: &[char], p: &[char]) -> (r: bool)
    ensures
        r == has_prefix(s@, p@),
{
    matches_at(s, 0, p)
}

/// `p` occurs somewhere in `s`.
pub fn contains(s: &[char], p: &[char]) -> (r: bool)
    ensures
        r == has_infix(s@, p@),
{
    if p.len() > s.len() {
        return false;
    }
    let last = s.len() - p.len();
    let mut i: usize = 0;
    while i <= last
        invariant
            last == s.len() - p.len(),
            i <= last + 1,
            forall|j: int| 0 <= j < i ==> #[trigger] s@.subrange(j, j + p.len()) != p@,
        decreases last + 1 - i,
    {
        if matches_at(s, i, p) {
            return true;
        }
        if i == last {
            return false;
        }
        i = i + 1;
    }
    false
}

// ---------------------------------------------------------------------------
// ASCII case-insensitive equality
// ---------------------------------------------------------------------------

/// The code point of `c` with ASCII upper-case letters mapped to lower case.
pub open spec fn ascii_folded(c: char) -> u32 {
    if 65 <= (c as u32) <= 90 {
        ((c as u32) + 32) as u32
    } else {
        c as u32
    }
}

/// `a` and `b` are equal when ASCII letters are compared without case.
pub open spec fn eq_ascii_ci(a: Seq<char>, b: Seq<char>) -> bool {
    a.len() == b.len() && forall|i: int| 0 <= i < a.len() ==> ascii_folded(#[trigger] a[i])
        == ascii_folded(b[i])
}

/// ASCII case-insensitive equality of two strings.
pub fn str_eq_ignore_ascii_case(a: &str, b: &str) -> (r: bool)
    ensures
        r == eq_ascii_ci(a@, b@),
{
    let x = chars_of(a);
    let y = chars_of(b);
    chars_eq_ignore_ascii_case(&x, &y)
}

/// The code point of `c` with ASCII upper-case letters mapped to lower case.
pub fn fold_ascii(c: char) -> (r: u32)
    ensures
        r == ascii_folded(c),
{
    let u = c as u32;
    if 65 <= u && u <= 90 {
        u + 32
    } else {
        u
    }
}

/// ASCII case-insensitive equality of two character sequences.
pub fn chars_eq_ignore_ascii_case(a: &[char], b: &[char]) -> (r: bool)
    ensures
        r == eq_ascii_ci(a@, b@),
{
    if a.len() != b.len() {
        return false;
    }
    let mut i: usize = 0;
    while i < a.len()
        invariant
            a.len() == b.len(),
            i <= a.len(),
            forall|j: int| 0 <= j < i ==> ascii_folded(#[trigger] a@[j]) == ascii_folded(b@[j]),
        decreases a.len() - i,
    {
        if fold_ascii(a[i]) != fold_ascii(b[i]) {
            return false;
        }
        i = i + 1;
    }
    true
}

// ---------------------------------------------------------------------------
// Whitespace trimming
// ---------------------------------------------------------------------------

/// `c` has the Unicode `White_Space` property.
pub open spec fn is_whitespace(c: char) -> bool {
    let u = c as u32;
    ||| 0x9 <= u <= 0xD
    ||| u == 0x20
    ||| u == 0x85
    ||| u == 0xA0
    ||| u == 0x1680
    ||| 0x2000 <= u <= 0x200A
    ||| u == 0x2028
    ||| u == 0x2029
    ||| u == 0x202F
    ||| u == 0x205F
    ||| u == 0x3000
}

/// `s` without its leading whitespace.
pub open spec fn trimmed_start(s: Seq<char>) -> Seq<char>
    decreases s.len(),
{
    if s.len() > 0 && is_whitespace(s[0]) {
        trimmed_start(s.drop_first())
    } else {
        s
    }
}

/// `s` without its trailing whitespace.
pub open spec fn trimmed_end(s: Seq<char>) -> Seq<char>
    decreases s.len(),
{
    if s.len() > 0 && is_whitespace(s.last()) {
        trimmed_end(s.drop_last())
    } else {
        s
    }
}

/// `s` without leading and trailing whitespace.
pub open spec fn trimmed(s: Seq<char>) -> Seq<char> {
    trimmed_end(trimmed_start(s))
}

/// Whether `c` is whitespace.
pub fn char_is_whitespace(c: char) -> (r: bool)
    ensures
        r == is_whitespace(c),
{
    let u = c as u32;
    (0x9 <= u && u <= 0xD) || u == 0x20 || u == 0x85 || u == 0xA0 || u == 0x1680 || (0x2000 <= u
        && u <= 0x200A) || u == 0x2028 || u == 0x2029 || u == 0x202F || u == 0x205F || u == 0x3000
}

/// The bounds of `s` with leading and trailing whitespace removed.
pub fn trim_bounds(s: &[char]) -> (r: (usize, usize))
    ensures
        r.0 <= r.1 <= s.len(),
        s@.subrange(r.0 as int, r.1 as int) == trimmed(s@),
{
    let n = s.len();
    let mut i: usize = 0;
    assert(s@.subrange(0, n as int) =~= s@);
    while i < n && char_is_whitespace(s[i])
        invariant
            n == s.len(),
            i <= n,
            trimmed_start(s@) == trimmed_start(s@.subrange(i as int, n as int)),
        decreases n - i,
    {
        assert(s@.subrange(i as int, n as int).drop_first() =~= s@.subrange(i + 1, n as int));
        i = i + 1;
    }
    assert(trimmed_start(s@) == s@.subrange(i as int, n as int));
    let mut j: usize = n;
    while j > i && char_is_whitespace(s[j - 1])
        invariant
            n == s.len(),
            i <= j <= n,
            trimmed(s@) == trimmed_end(s@.subrange(i as int, j as int)),
        decreases j - i,
    {
        assert(s@.subrange(i as int, j as int).drop_last() =~= s@.subrange(i as int, j - 1));
        j = j - 1;
    }
    (i, j)
}

/// The trimmed `s` equals `p`.
pub fn trimmed_eq(s: &[char], p: &[char]) -> (r: bool)
    ensures
        r == (trimmed(s@) == p@),
{
    let (lo, hi) = trim_bounds(s);
    range_eq(s, lo, hi, p)
}

/// The trimmed `s` starts with `p`.
pub fn trimmed_starts_with(s: &[char], p: &[char]) -> (r: bool)
    ensures
        r == has_prefix(trimmed(s@), p@),
{
    let (lo, hi) = trim_bounds(s);
    if p.len() > hi - lo {
        return false;
    }
    let r = range_eq(s, lo, lo + p.len(), p);
    assert(trimmed(s@).subrange(0, p.len() as int) =~= s@.subrange(lo as int, lo + p.len()));
    r
}

// ---------------------------------------------------------------------------
// Lines and joining
// ---------------------------------------------------------------------------

/// `x` without one trailing carriage return.
pub open spec fn strip_cr(x: Seq<char>) -> Seq<char> {
    if x.len() > 0 && x.last() == '\r' {
        x.drop_last()
    } else {
        x
    }
}

/// The lines of `s`, where `cur` is the part of the current line already
/// read. A line ends at `\n`; a `\r` just before that `\n` is dropped; a
/// final line ending is optional and an empty final line is not a line.
pub open spec fn lines_after(s: Seq<char>, cur: Seq<char>) -> Seq<Seq<char>>
    decreases s.len(),
{
    if s.len() == 0 {
        if cur.len() == 0 {
            seq![]
        } else {
            seq![cur]
        }
    } else if s[0] == '\n' {
        seq![strip_cr(cur)] + lines_after(s.drop_first(), seq![])
    } else {
        lines_after(s.drop_first(), cur.push(s[0]))
    }
}

/// The lines of `s`, as `str::lines` yields them.
pub open spec fn lines_of(s: Seq<char>) -> Seq<Seq<char>> {
    lines_after(s, seq![])
}

/// The line ending that closes the line read so far as `cur` when a `\n`
/// comes: `\r\n` when the line ends with `\r`, else `\n`.
pub open spec fn ending_of(cur: Seq<char>) -> Seq<char> {
    if cur.len() > 0 && cur.last() == '\r' {
        seq!['\r', '\n']
    } else {
        seq!['\n']
    }
}

/// The line endings of `s`, one for each line of `lines_after(s, cur)`:
/// `\n` or `\r\n`, and nothing for a last line that has no ending.
pub open spec fn endings_after(s: Seq<char>, cur: Seq<char>) -> Seq<Seq<char>>
    decreases s.len(),
{
    if s.len() == 0 {
        if cur.len() == 0 {
            seq![]
        } else {
            seq![seq![]]
        }
    } else if s[0] == '\n' {
        seq![ending_of(cur)] + endings_after(s.drop_first(), seq![])
    } else {
        endings_after(s.drop_first(), cur.push(s[0]))
    }
}

/// The line endings of `s`, one for each line of `lines_of(s)`.
pub open spec fn line_endings(s: Seq<char>) -> Seq<Seq<char>> {
    endings_after(s, seq![])
}

/// Each line followed by its ending.
pub open spec fn rejoined(ls: Seq<Seq<char>>, es: Seq<Seq<char>>) -> Seq<char>
    decreases ls.len(),
{
    if ls.len() == 0 {
        seq![]
    } else {
        ls[0] + es[0] + rejoined(ls.drop_first(), es.drop_first())
    }
}

/// `n` line endings `\n`.
pub open spec fn newline_endings(n: nat) -> Seq<Seq<char>> {
    Seq::new(n, |i: int| seq!['\n'])
}

/// There is one ending for each line.
pub proof fn lemma_endings_len(s: Seq<char>, cur: Seq<char>)
    ensures
        endings_after(s, cur).len() == lines_after(s, cur).len(),
    decreases s.len(),
{
    if s.len() > 0 {
        if s[0] == '\n' {
            lemma_endings_len(s.drop_first(), seq![]);
        } else {
            lemma_endings_len(s.drop_first(), cur.push(s[0]));
        }
    }
}

/// The lines, each followed by its ending, give back the text: nothing is
/// lost by splitting.
pub proof fn lemma_rejoin_lines(s: Seq<char>, cur: Seq<char>)
    ensures
        rejoined(lines_after(s, cur), endings_after(s, cur)) == cur + s,
    decreases s.len(),
{
    if s.len() == 0 {
        if cur.len() > 0 {
            let ls = lines_after(s, cur);
            let es = endings_after(s, cur);
            assert(ls =~= seq![cur]);
            assert(es =~= seq![Seq::<char>::empty()]);
            assert(ls.drop_first() =~= Seq::<Seq<char>>::empty());
            assert(rejoined(ls.drop_first(), es.drop_first()) == Seq::<char>::empty());
            assert(rejoined(ls, es) =~= cur + Seq::<char>::empty() + Seq::<char>::empty());
        }
        assert(cur + s =~= cur);
    } else if s[0] == '\n' {
        let t = s.drop_first();
        lemma_rejoin_lines(t, seq![]);
        let ls = lines_after(s, cur);
        let es = endings_after(s, cur);
        assert(ls.drop_first() =~= lines_after(t, seq![]));
        assert(es.drop_first() =~= endings_after(t, seq![]));
        assert(strip_cr(cur) + ending_of(cur) =~= cur + seq!['\n']);
        assert(Seq::<char>::empty() + t =~= t);
        assert(cur + s =~= cur + seq!['\n'] + t);
        assert(rejoined(ls, es) =~= cur + s);
    } else {
        lemma_rejoin_lines(s.drop_first(), cur.push(s[0]));
        assert(cur.push(s[0]) + s.drop_first() =~= cur + s);
    }
}

/// Rejoining two runs of lines is rejoining each.
pub proof fn lemma_rejoined_concat(a: Seq<Seq<char>>, ea: Seq<Seq<char>>, b: Seq<Seq<char>>, eb: Seq<Seq<char>>)
    requires
        a.len() == ea.len(),
    ensures
        rejoined(a + b, ea + eb) == rejoined(a, ea) + rejoined(b, eb),
    decreases a.len(),
{
    if a.len() == 0 {
        assert(a + b =~= b);
        assert(ea + eb =~= eb);
        assert(Seq::<char>::empty() + rejoined(b, eb) =~= rejoined(b, eb));
    } else {
        lemma_rejoined_concat(a.drop_first(), ea.drop_first(), b, eb);
        assert((a + b).drop_first() =~= a.drop_first() + b);
        assert((ea + eb).drop_first() =~= ea.drop_first() + eb);
        assert((a + b)[0] == a[0]);
        assert((ea + eb)[0] == ea[0]);
        assert(rejoined(a + b, ea + eb) =~= rejoined(a, ea) + rejoined(b, eb));
    }
}

/// Reading text that ends with a line break and then more text: the lines
/// and endings of the first part, then those of the rest.
pub proof fn lemma_lines_concat(a: Seq<char>, b: Seq<char>, cur: Seq<char>)
    requires
        a.len() > 0,
        a.last() == '\n',
    ensures
        lines_after(a + b, cur) == lines_after(a, cur) + lines_after(b, seq![]),
        endings_after(a + b, cur) == endings_after(a, cur) + endings_after(b, seq![]),
    decreases a.len(),
{
    let s = a + b;
    assert(s[0] == a[0]);
    assert(s.drop_first() =~= a.drop_first() + b);
    if a[0] == '\n' {
        if a.len() == 1 {
            assert(a.drop_first() =~= Seq::<char>::empty());
            assert(a.drop_first() + b =~= b);
            assert(lines_after(a.drop_first(), seq![]) =~= Seq::<Seq<char>>::empty());
            assert(endings_after(a.drop_first(), seq![]) =~= Seq::<Seq<char>>::empty());
            assert(lines_after(a, cur) =~= seq![strip_cr(cur)]);
            assert(endings_after(a, cur) =~= seq![ending_of(cur)]);
        } else {
            assert(a.drop_first().last() == a.last());
            lemma_lines_concat(a.drop_first(), b, seq![]);
            assert(lines_after(a + b, cur) =~= lines_after(a, cur) + lines_after(b, seq![]));
            assert(endings_after(a + b, cur) =~= endings_after(a, cur) + endings_after(b, seq![]));
        }
    } else {
        assert(a.len() > 1);
        assert(a.drop_first().last() == a.last());
        lemma_lines_concat(a.drop_first(), b, cur.push(a[0]));
    }
}

/// Adding a line break at the end of a text either adds an empty last line
/// or ends the last line, which loses a trailing `\r`.
pub proof fn lemma_lines_add_newline(s: Seq<char>, cur: Seq<char>)
    ensures
        ({
            let a = lines_after(s, cur);
            let b = lines_after(s + seq!['\n'], cur);
            ||| b == a + seq![Seq::<char>::empty()]
            ||| a.len() > 0 && b == a.drop_last() + seq![strip_cr(a.last())]
        }),
    decreases s.len(),
{
    let t = s + seq!['\n'];
    if s.len() == 0 {
        assert(t =~= seq!['\n']);
        assert(t.drop_first() =~= Seq::<char>::empty());
        assert(lines_after(t.drop_first(), seq![]) == Seq::<Seq<char>>::empty());
        assert(lines_after(t, cur) == seq![strip_cr(cur)] + lines_after(t.drop_first(), seq![]));
        if cur.len() == 0 {
            assert(strip_cr(cur) =~= Seq::<char>::empty());
            assert(lines_after(t, cur) =~= lines_after(s, cur) + seq![Seq::<char>::empty()]);
        } else {
            assert(lines_after(s, cur) =~= seq![cur]);
            assert(lines_after(t, cur) =~= lines_after(s, cur).drop_last() + seq![strip_cr(cur)]);
        }
    } else {
        assert(t[0] == s[0]);
        assert(t.drop_first() =~= s.drop_first() + seq!['\n']);
        if s[0] == '\n' {
            lemma_lines_add_newline(s.drop_first(), seq![]);
            let a1 = lines_after(s.drop_first(), seq![]);
            let b1 = lines_after(s.drop_first() + seq!['\n'], seq![]);
            let a = lines_after(s, cur);
            let b = lines_after(t, cur);
            assert(a == seq![strip_cr(cur)] + a1);
            assert(b == seq![strip_cr(cur)] + b1);
            if b1 == a1 + seq![Seq::<char>::empty()] {
                assert(b =~= a + seq![Seq::<char>::empty()]);
            } else {
                assert(a.last() == a1.last());
                assert(b =~= a.drop_last() + seq![strip_cr(a.last())]);
            }
        } else {
            lemma_lines_add_newline(s.drop_first(), cur.push(s[0]));
        }
    }
}

/// Trimming a line does not depend on a trailing `\r`, which is
/// whitespace.
pub proof fn lemma_trimmed_strip_cr(x: Seq<char>)
    ensures
        trimmed(strip_cr(x)) == trimmed(x),
{
    if x.len() > 0 && x.last() == '\r' {
        let y = x.drop_last();
        assert(y.push('\r') =~= x);
        lemma_trimmed_start_push_ws(y, '\r');
        let ty = trimmed_start(y);
        if ty.len() > 0 {
            assert(trimmed_start(x) == ty.push('\r'));
            assert(ty.push('\r').drop_last() =~= ty);
        } else {
            assert(trimmed_start(x).len() == 0);
        }
    }
}

/// Appending a whitespace character to a text: trimming the start either
/// keeps it at the end, or leaves nothing when the text was all whitespace.
pub proof fn lemma_trimmed_start_push_ws(y: Seq<char>, c: char)
    requires
        is_whitespace(c),
    ensures
        trimmed_start(y).len() > 0 ==> trimmed_start(y.push(c)) == trimmed_start(y).push(c),
        trimmed_start(y).len() == 0 ==> trimmed_start(y.push(c)).len() == 0,
    decreases y.len(),
{
    let x = y.push(c);
    if y.len() == 0 {
        assert(x[0] == c);
        assert(x.drop_first() =~= Seq::<char>::empty());
        assert(trimmed_start(x) == trimmed_start(x.drop_first()));
        assert(trimmed_start(x.drop_first()) == Seq::<char>::empty());
    } else {
        assert(x[0] == y[0]);
        if is_whitespace(y[0]) {
            assert(x.drop_first() =~= y.drop_first().push(c));
            lemma_trimmed_start_push_ws(y.drop_first(), c);
            assert(trimmed_start(y) == trimmed_start(y.drop_first()));
            assert(trimmed_start(x) == trimmed_start(x.drop_first()));
        } else {
            assert(trimmed_start(y) == y);
            assert(trimmed_start(x) == x);
        }
    }
}

/// Pushing a line adds its view at the end.
pub proof fn lemma_views_push(v: Seq<Vec<char>>, x: Vec<char>)
    ensures
        views(v.push(x)) == views(v) + seq![x@],
{
    assert(views(v.push(x)) =~= views(v) + seq![x@]);
}

/// The lines of `s` and, for each, its line ending.
pub fn split_lines_with_endings(s: &[char]) -> (r: (Vec<Vec<char>>, Vec<Vec<char>>))
    ensures
        views(r.0@) == lines_of(s@),
        views(r.1@) == line_endings(s@),
        r.0@.len() == r.1@.len(),
{
    let mut r: Vec<Vec<char>> = Vec::new();
    let mut e: Vec<Vec<char>> = Vec::new();
    let mut cur: Vec<char> = Vec::new();
    let mut i: usize = 0;
    assert(s@.skip(0) =~= s@);
    assert(views(r@) =~= Seq::<Seq<char>>::empty());
    assert(views(e@) =~= Seq::<Seq<char>>::empty());
    while i < s.len()
        invariant
            i <= s.len(),
            r@.len() == e@.len(),
            views(r@) + lines_after(s@.skip(i as int), cur@) == lines_of(s@),
            views(e@) + endings_after(s@.skip(i as int), cur@) == line_endings(s@),
        decreases s.len() - i,
    {
        let c = s[i];
        assert(s@.skip(i as int).drop_first() =~= s@.skip(i + 1));
        assert(s@.skip(i as int)[0] == c);
        if c == '\n' {
            let ghost before = cur@;
            let mut ending: Vec<char> = Vec::new();
            if cur.len() > 0 && cur[cur.len() - 1] == '\r' {
                cur.pop();
                ending.push('\r');
            }
            ending.push('\n');
            assert(cur@ == strip_cr(before));
            assert(ending@ =~= ending_of(before));
            proof {
                lemma_views_push(r@, cur);
                lemma_views_push(e@, ending);
            }
            r.push(cur);
            e.push(ending);
            cur = Vec::new();
            assert(views(r@) + lines_after(s@.skip(i + 1), cur@) =~= lines_of(s@)) by {
                assert(lines_after(s@.skip(i as int), before) == seq![strip_cr(before)]
                    + lines_after(s@.skip(i + 1), seq![]));
                assert(cur@ =~= Seq::<char>::empty());
            }
            assert(views(e@) + endings_after(s@.skip(i + 1), cur@) =~= line_endings(s@)) by {
                assert(endings_after(s@.skip(i as int), before) == seq![ending_of(before)]
                    + endings_after(s@.skip(i + 1), seq![]));
                assert(cur@ =~= Seq::<char>::empty());
            }
        } else {
            cur.push(c);
        }
        i = i + 1;
    }
    assert(s@.skip(i as int) =~= Seq::<char>::empty());
    if cur.len() > 0 {
        let none: Vec<char> = Vec::new();
        proof {
            lemma_views_push(r@, cur);
            lemma_views_push(e@, none);
        }
        r.push(cur);
        e.push(none);
        assert(views(e@) =~= line_endings(s@));
    }
    (r, e)
}

/// The lines of `s`.
pub fn split_lines(s: &[char]) -> (r: Vec<Vec<char>>)
    ensures
        views(r@) == lines_of(s@),
{
    let (r, _e) = split_lines_with_endings(s);
    r
}

/// Each line followed by its ending.
pub fn rejoin_lines(ls: &Vec<Vec<char>>, es: &Vec<Vec<char>>) -> (r: Vec<char>)
    requires
        ls.len() == es.len(),
    ensures
        r@ == rejoined(views(ls@), views(es@)),
{
    let mut out: Vec<char> = Vec::new();
    let ghost lv = views(ls@);
    let ghost ev = views(es@);
    let mut i: usize = 0;
    assert(lv.skip(0) =~= lv);
    assert(ev.skip(0) =~= ev);
    while i < ls.len()
        invariant
            i <= ls.len() == es.len(),
            lv == views(ls@),
            ev == views(es@),
            out@ + rejoined(lv.skip(i as int), ev.skip(i as int)) == rejoined(lv, ev),
        decreases ls.len() - i,
    {
        let ghost before = out@;
        assert(lv.skip(i as int).drop_first() =~= lv.skip(i + 1));
        assert(ev.skip(i as int).drop_first() =~= ev.skip(i + 1));
        assert(lv.skip(i as int)[0] == ls@[i as int]@);
        assert(ev.skip(i as int)[0] == es@[i as int]@);
        append_chars(&mut out, ls[i].as_slice());
        append_chars(&mut out, es[i].as_slice());
        i = i + 1;
        assert(out@ + rejoined(lv.skip(i as int), ev.skip(i as int)) =~= before + rejoined(
            lv.skip(i - 1),
            ev.skip(i - 1),
        ));
    }
    assert(lv.skip(i as int) =~= Seq::<Seq<char>>::empty());
    assert(out@ + Seq::<char>::empty() =~= out@);
    out
}

// ---------------------------------------------------------------------------
// Replacement
// ---------------------------------------------------------------------------

/// `r` inserted before each character of `s` and at its end.
pub open spec fn interleaved(s: Seq<char>, r: Seq<char>) -> Seq<char>
    decreases s.len(),
{
    if s.len() == 0 {
        r
    } else {
        r + seq![s[0]] + interleaved(s.drop_first(), r)
    }
}

/// Every occurrence of `p` in `s`, found left to right without overlap,
/// replaced by `r`, as `str::replace` does. An empty `p` matches before
/// each character and at the end.
pub open spec fn replaced(s: Seq<char>, p: Seq<char>, r: Seq<char>) -> Seq<char>
    decreases s.len(),
{
    if p.len() == 0 {
        interleaved(s, r)
    } else if s.len() == 0 {
        seq![]
    } else if has_prefix(s, p) {
        r + replaced(s.skip(p.len() as int), p, r)
    } else {
        seq![s[0]] + replaced(s.drop_first(), p, r)
    }
}

/// `s` with every occurrence of `p` replaced by `r`.
pub fn replace_all(s: &[char], p: &[char], r: &[char]) -> (out: Vec<char>)
    ensures
        out@ == replaced(s@, p@, r@),
{
    let mut out: Vec<char> = Vec::new();
    let mut i: usize = 0;
    assert(s@.skip(0) =~= s@);
    if p.len() == 0 {
        while i < s.len()
            invariant
                i <= s.len(),
                p@.len() == 0,
                out@ + interleaved(s@.skip(i as int), r@) == replaced(s@, p@, r@),
            decreases s.len() - i,
        {
            assert(s@.skip(i as int).drop_first() =~= s@.skip(i + 1));
            let ghost before = out@;
            append_chars(&mut out, r);
            out.push(s[i]);
            i = i + 1;
            assert(out@ + interleaved(s@.skip(i as int), r@) =~= before + interleaved(
                s@.skip(i - 1),
                r@,
            ));
        }
        assert(s@.skip(i as int) =~= Seq::<char>::empty());
        append_chars(&mut out, r);
        return out;
    }
    while i < s.len()
        invariant
            i <= s.len(),
            p@.len() > 0,
            out@ + replaced(s@.skip(i as int), p@, r@) == replaced(s@, p@, r@),
        decreases s.len() - i,
    {
        let ghost before = out@;
        let ghost rest = s@.skip(i as int);
        if matches_at(s, i, p) {
            assert(rest.subrange(0, p@.len() as int) =~= s@.subrange(i as int, i + p@.len()));
            assert(rest.skip(p@.len() as int) =~= s@.skip(i + p@.len()));
            append_chars(&mut out, r);
            i = i + p.len();
            assert(out@ + replaced(s@.skip(i as int), p@, r@) =~= before + replaced(rest, p@, r@));
        } else {
            assert(p@.len() <= rest.len() ==> rest.subrange(0, p@.len() as int) =~= s@.subrange(
                i as int,
                i + p@.len(),
            ));
            assert(rest.drop_first() =~= s@.skip(i + 1));
            out.push(s[i]);
            i = i + 1;
            assert(out@ + replaced(s@.skip(i as int), p@, r@) =~= before + replaced(rest, p@, r@));
        }
    }
    assert(s@.skip(i as int) =~= Seq::<char>::empty());
    assert(out@ + replaced(s@.skip(i as int), p@, r@) =~= out@);
    out
}


// ---------------------------------------------------------------------------
// Splitting on a separator
// ---------------------------------------------------------------------------

/// The pieces of `s` between occurrences of `sep`, where `cur` is the part
/// of the current piece already read. There is always one piece more than
/// there are separators.
pub open spec fn split_after(s: Seq<char>, sep: char, cur: Seq<char>) -> Seq<Seq<char>>
    decreases s.len(),
{
    if s.len() == 0 {
        seq![cur]
    } else if s[0] == sep {
        seq![cur] + split_after(s.drop_first(), sep, seq![])
    } else {
        split_after(s.drop_first(), sep, cur.push(s[0]))
    }
}

/// The pieces of `s` between occurrences of `sep`, as `str::split` yields
/// them for a character pattern.
pub open spec fn split_by(s: Seq<char>, sep: char) -> Seq<Seq<char>> {
    split_after(s, sep, seq![])
}

/// The pieces of `s` between occurrences of `sep`.
pub fn split_on(s: &[char], sep: char) -> (r: Vec<Vec<char>>)
    ensures
        views(r@) == split_by(s@, sep),
{
    let mut r: Vec<Vec<char>> = Vec::new();
    let mut cur: Vec<char> = Vec::new();
    let mut i: usize = 0;
    assert(s@.skip(0) =~= s@);
    assert(views(r@) =~= Seq::<Seq<char>>::empty());
    while i < s.len()
        invariant
            i <= s.len(),
            views(r@) + split_after(s@.skip(i as int), sep, cur@) == split_by(s@, sep),
        decreases s.len() - i,
    {
        let c = s[i];
        assert(s@.skip(i as int).drop_first() =~= s@.skip(i + 1));
        assert(s@.skip(i as int)[0] == c);
        if c == sep {
            let ghost before = cur@;
            proof {
                lemma_views_push(r@, cur);
            }
            r.push(cur);
            cur = Vec::new();
            assert(views(r@) + split_after(s@.skip(i + 1), sep, cur@) =~= split_by(s@, sep)) by {
                assert(cur@ =~= Seq::<char>::empty());
            }
        } else {
            cur.push(c);
        }
        i = i + 1;
    }
    assert(s@.skip(i as int) =~= Seq::<char>::empty());
    proof {
        lemma_views_push(r@, cur);
    }
    r.push(cur);
    r
}

// ---------------------------------------------------------------------------
// UTF-8 length
// ---------------------------------------------------------------------------

/// The number of bytes of the UTF-8 encoding of `c`.
pub open spec fn utf8_width(c: char) -> nat {
    let u = c as u32;
    if u < 0x80 {
        1
    } else if u < 0x800 {
        2
    } else if u < 0x10000 {
        3
    } else {
        4
    }
}

/// The number of bytes of the UTF-8 encoding of `s`, which is what
/// `str::len` returns.
pub open spec fn byte_len(s: Seq<char>) -> nat
    decreases s.len(),
{
    if s.len() == 0 {
        0
    } else {
        byte_len(s.drop_last()) + utf8_width(s.last())
    }
}

/// The byte length of a concatenation is the sum of the byte lengths.
pub proof fn lemma_byte_len_concat(a: Seq<char>, b: Seq<char>)
    ensures
        byte_len(a + b) == byte_len(a) + byte_len(b),
    decreases b.len(),
{
    if b.len() > 0 {
        lemma_byte_len_concat(a, b.drop_last());
        assert((a + b).drop_last() =~= a + b.drop_last());
    } else {
        assert(a + b =~= a);
    }
}

/// The number of bytes of the UTF-8 encoding of `c`.
pub fn char_width(c: char) -> (r: usize)
    ensures
        r == utf8_width(c),
{
    let u = c as u32;
    if u < 0x80 {
        1
    } else if u < 0x800 {
        2
    } else if u < 0x10000 {
        3
    } else {
        4
    }
}

/// Whether the UTF-8 encoding of `s` has at least `n` bytes.
pub fn byte_len_at_least(s: &[char], n: usize) -> (r: bool)
    ensures
        r == (byte_len(s@) >= n),
{
    if n == 0 {
        return true;
    }
    let mut acc: usize = 0;
    let mut i: usize = 0;
    assert(s@.take(0) =~= Seq::<char>::empty());
    while i < s.len()
        invariant
            i <= s.len(),
            acc < n,
            acc == byte_len(s@.take(i as int)),
        decreases s.len() - i,
    {
        let w = char_width(s[i]);
        assert(s@.take(i + 1).drop_last() =~= s@.take(i as int));
        assert(byte_len(s@.take(i + 1)) == acc + w);
        if w >= n - acc {
            proof {
                lemma_byte_len_concat(s@.take(i + 1), s@.skip(i + 1));
                assert(s@.take(i + 1) + s@.skip(i + 1) =~= s@);
            }
            return true;
        }
        acc = acc + w;
        i = i + 1;
    }
    assert(s@.take(i as int) =~= s@);
    false
}

/// Whether the UTF-8 encoding of `s` has at most `n` bytes.
pub fn byte_len_at_most(s: &[char], n: usize) -> (r: bool)
    ensures
        r == (byte_len(s@) <= n),
{
    if n == usize::MAX {
        let r = byte_len_at_least(s, n);
        if r {
            assert(byte_len(s@) >= usize::MAX);
        }
        return !r || byte_len_at_least_exactly(s, n);
    }
    !byte_len_at_least(s, n + 1)
}

/// Whether the UTF-8 encoding of `s` has exactly `n` bytes, given that it
/// has at least `n`.
fn byte_len_at_least_exactly(s: &[char], n: usize) -> (r: bool)
    requires
        byte_len(s@) >= n,
        n == usize::MAX,
    ensures
        r == (byte_len(s@) <= n),
{
    // One more byte than usize::MAX cannot be asked for directly: count
    // instead whether some proper prefix already reaches `n`.
    let mut acc: usize = 0;
    let mut i: usize = 0;
    assert(s@.take(0) =~= Seq::<char>::empty());
    while i < s.len()
        invariant
            i <= s.len(),
            n == usize::MAX,
            acc < n,
            acc == byte_len(s@.take(i as int)),
        decreases s.len() - i,
    {
        let w = char_width(s[i]);
        assert(s@.take(i + 1).drop_last() =~= s@.take(i as int));
        proof {
            lemma_byte_len_concat(s@.take(i + 1), s@.skip(i + 1));
            assert(s@.take(i + 1) + s@.skip(i + 1) =~= s@);
        }
        if w >= n - acc {
            // The bytes up to and including character `i` reach `n`; the
            // whole string is `n` bytes only if they are exactly `n` and
            // nothing follows.
            if w == n - acc && i + 1 == s.len() {
                assert(s@.skip(i + 1) =~= Seq::<char>::empty());
                return true;
            }
            if w == n - acc {
                assert(s@.skip(i + 1).len() > 0);
                proof {
                    lemma_byte_len_positive(s@.skip(i + 1));
                }
            }
            return false;
        }
        acc = acc + w;
        i = i + 1;
    }
    assert(s@.take(i as int) =~= s@);
    false
}

/// A nonempty sequence has a positive byte length.
pub proof fn lemma_byte_len_positive(s: Seq<char>)
    requires
        s.len() > 0,
    ensures
        byte_len(s) > 0,
{
}


/// The views of a sequence of strings.
pub open spec fn string_views(v: Seq<String>) -> Seq<Seq<char>> {
    v.map_values(|s: String| s@)
}

/// Pushing a string onto a vector extends its views by one.
pub proof fn lemma_string_views_push(v: Seq<String>, s: String)
    ensures
        string_views(v.push(s)) == string_views(v) + seq![s@],
{
    assert(string_views(v.push(s)) =~= string_views(v) + seq![s@]);
}

/// `a` followed by `b`.
pub fn concat_str(a: &str, b: &str) -> (r: String)
    ensures
        r@ == a@ + b@,
{
    let mut x = chars_of(a);
    let y = chars_of(b);
    append_chars(&mut x, &y);
    string_of(&x)
}


/// Appends the characters of `s` to `out`.
pub fn push_str(out: &mut Vec<char>, s: &str)
    ensures
        final(out)@ == old(out)@ + s@,
{
    let cs = chars_of(s);
    append_chars(out, &cs);
}


/// `r` interleaved with nothing is `s` itself.
pub proof fn lemma_interleaved_empty(s: Seq<char>)
    ensures
        interleaved(s, seq![]) == s,
    decreases s.len(),
{
    if s.len() > 0 {
        lemma_interleaved_empty(s.drop_first());
        assert(seq![s[0]] + s.drop_first() =~= s);
        assert(Seq::<char>::empty() + seq![s[0]] + interleaved(s.drop_first(), seq![]) =~= s);
    }
}

/// Replacing a pattern by itself leaves a string unchanged.
pub proof fn lemma_replaced_same(s: Seq<char>, p: Seq<char>)
    ensures
        replaced(s, p, p) == s,
    decreases s.len(),
{
    if p.len() == 0 {
        assert(p =~= Seq::<char>::empty());
        lemma_interleaved_empty(s);
    } else if s.len() > 0 {
        if has_prefix(s, p) {
            lemma_replaced_same(s.skip(p.len() as int), p);
            assert(p + s.skip(p.len() as int) =~= s);
        } else {
            lemma_replaced_same(s.drop_first(), p);
            assert(seq![s[0]] + s.drop_first() =~= s);
        }
    }
}


/// `s` is one line as `str::lines` yields it: it holds no `\n` and does not
/// end with `\r`.
pub open spec fn is_single_line(s: Seq<char>) -> bool {
    &&& forall|i: int| 0 <= i < s.len() ==> s[i] != '\n'
    &&& (s.len() == 0 || s.last() != '\r')
}

/// Two single lines put together are a single line.
pub proof fn lemma_single_line_concat(a: Seq<char>, b: Seq<char>)
    requires
        is_single_line(a),
        is_single_line(b),
    ensures
        is_single_line(a + b),
{
    assert forall|i: int| 0 <= i < (a + b).len() implies (a + b)[i] != '\n' by {
        if i >= a.len() {
            assert((a + b)[i] == b[i - a.len()]);
        }
    }
    if b.len() == 0 {
        assert(a + b =~= a);
    }
}

/// Reading a line `x` and its line ending yields the current line
/// completed by `x` and then the lines of what follows.
pub proof fn lemma_lines_after_line(x: Seq<char>, rest: Seq<char>, cur: Seq<char>)
    requires
        forall|i: int| 0 <= i < x.len() ==> x[i] != '\n',
    ensures
        lines_after(x + seq!['\n'] + rest, cur) == seq![strip_cr(cur + x)] + lines_after(
            rest,
            seq![],
        ),
        endings_after(x + seq!['\n'] + rest, cur) == seq![ending_of(cur + x)] + endings_after(
            rest,
            seq![],
        ),
    decreases x.len(),
{
    let s = x + seq!['\n'] + rest;
    if x.len() == 0 {
        assert(s.drop_first() =~= rest);
        assert(cur + x =~= cur);
    } else {
        assert(s[0] == x[0]);
        assert(s.drop_first() =~= x.drop_first() + seq!['\n'] + rest);
        lemma_lines_after_line(x.drop_first(), rest, cur.push(x[0]));
        assert(cur.push(x[0]) + x.drop_first() =~= cur + x);
    }
}

/// Leading whitespace before a non-whitespace character is trimmed away.
pub proof fn lemma_trimmed_start_skip(a: Seq<char>, b: Seq<char>)
    requires
        forall|i: int| 0 <= i < a.len() ==> is_whitespace(a[i]),
        b.len() > 0,
        !is_whitespace(b[0]),
    ensures
        trimmed_start(a + b) == b,
    decreases a.len(),
{
    if a.len() == 0 {
        assert(a + b =~= b);
    } else {
        assert((a + b).drop_first() =~= a.drop_first() + b);
        lemma_trimmed_start_skip(a.drop_first(), b);
    }
}

/// Trimming the end keeps a prefix, and keeps at least the first character
/// when that is not whitespace.
pub proof fn lemma_trimmed_end_prefix(s: Seq<char>)
    ensures
        trimmed_end(s).len() <= s.len(),
        trimmed_end(s) == s.subrange(0, trimmed_end(s).len() as int),
        s.len() > 0 && !is_whitespace(s[0]) ==> trimmed_end(s).len() > 0,
    decreases s.len(),
{
    if s.len() > 0 && is_whitespace(s.last()) {
        lemma_trimmed_end_prefix(s.drop_last());
        let t = trimmed_end(s.drop_last());
        assert(s.drop_last().subrange(0, t.len() as int) =~= s.subrange(0, t.len() as int));
        if s.len() == 1 {
            assert(s.last() == s[0]);
        }
    } else {
        assert(s.subrange(0, s.len() as int) =~= s);
    }
}

/// Replacing `p` in `a` followed by `p`, where no character of `a` starts
/// `p`, replaces just the final `p`.
pub proof fn lemma_replaced_after(a: Seq<char>, p: Seq<char>, r: Seq<char>)
    requires
        p.len() > 0,
        forall|i: int| 0 <= i < a.len() ==> a[i] != p[0],
    ensures
        replaced(a + p, p, r) == a + r,
    decreases a.len(),
{
    let s = a + p;
    if a.len() == 0 {
        assert(s =~= p);
        assert(s.subrange(0, p.len() as int) =~= p);
        assert(has_prefix(s, p));
        let e = s.skip(p.len() as int);
        assert(e =~= Seq::<char>::empty());
        assert(replaced(e, p, r) =~= Seq::<char>::empty());
        assert(r + replaced(e, p, r) =~= r);
        assert(a + r =~= r);
    } else {
        assert(s[0] == a[0]);
        assert(!has_prefix(s, p)) by {
            assert(s.subrange(0, p.len() as int)[0] == s[0]);
        }
        assert(s.drop_first() =~= a.drop_first() + p);
        lemma_replaced_after(a.drop_first(), p, r);
        assert(seq![a[0]] + (a.drop_first() + r) =~= a + r);
    }
}

/// Replacing a pattern that does not occur changes nothing.
pub proof fn lemma_replaced_absent(s: Seq<char>, p: Seq<char>, r: Seq<char>)
    requires
        p.len() > 0,
        !has_infix(s, p),
    ensures
        replaced(s, p, r) == s,
    decreases s.len(),
{
    if s.len() > 0 {
        assert(!has_prefix(s, p)) by {
            if has_prefix(s, p) {
                assert(s.subrange(0, 0 + p.len() as int) == p);
            }
        }
        let t = s.drop_first();
        assert(!has_infix(t, p)) by {
            if has_infix(t, p) {
                let i = choose|i: int| 0 <= i && i + p.len() <= t.len() && #[trigger] t.subrange(
                    i,
                    i + p.len(),
                ) == p;
                assert(s.subrange(i + 1, i + 1 + p.len()) =~= t.subrange(i, i + p.len()));
            }
        }
        lemma_replaced_absent(t, p, r);
        assert(seq![s[0]] + t =~= s);
    }
}

/// Replacing `p` in `a` followed by `p`, where `p` occurs only at the very
/// end, replaces just that final `p`.
#[verifier::spinoff_prover]
pub proof fn lemma_replaced_at_end(a: Seq<char>, p: Seq<char>, r: Seq<char>)
    requires
        p.len() > 0,
        !has_infix((a + p).drop_last(), p),
    ensures
        replaced(a + p, p, r) == a + r,
    decreases a.len(),
{
    let s = a + p;
    if a.len() == 0 {
        lemma_replaced_after(a, p, r);
    } else {
        assert(!has_prefix(s, p)) by {
            if has_prefix(s, p) {
                assert(s.drop_last().subrange(0, 0 + p.len() as int) =~= s.subrange(0, p.len() as int));
            }
        }
        let t = a.drop_first();
        assert(s.drop_first() =~= t + p);
        assert(!has_infix((t + p).drop_last(), p)) by {
            if has_infix((t + p).drop_last(), p) {
                let u = (t + p).drop_last();
                let i = choose|i: int| 0 <= i && i + p.len() <= u.len() && #[trigger] u.subrange(
                    i,
                    i + p.len(),
                ) == p;
                assert(s.drop_last().subrange(i + 1, i + 1 + p.len()) =~= u.subrange(
                    i,
                    i + p.len(),
                ));
            }
        }
        lemma_replaced_at_end(t, p, r);
        assert(seq![a[0]] + (t + r) =~= a + r);
    }
}

/// A pattern of two or more characters does not occur in `lit + x` when it
/// does not occur in `x` and, wherever `lit` holds the pattern's first
/// character, the next character of `lit` differs from the pattern's
/// second one.
pub proof fn lemma_no_infix_after_literal(lit: Seq<char>, x: Seq<char>, p: Seq<char>)
    requires
        p.len() >= 2,
        !has_infix(x, p),
        forall|i: int|
            0 <= i < lit.len() && #[trigger] lit[i] == p[0] ==> i + 1 < lit.len() && lit[i + 1]
                != p[1],
    ensures
        !has_infix(lit + x, p),
{
    let s = lit + x;
    if has_infix(s, p) {
        let i = choose|i: int| 0 <= i && i + p.len() <= s.len() && #[trigger] s.subrange(
            i,
            i + p.len(),
        ) == p;
        if i >= lit.len() {
            assert(x.subrange(i - lit.len(), i - lit.len() + p.len()) =~= s.subrange(
                i,
                i + p.len(),
            ));
        } else {
            assert(s.subrange(i, i + p.len())[0] == s[i]);
            assert(s.subrange(i, i + p.len())[1] == s[i + 1]);
            assert(lit[i] == p[0]);
        }
    }
}

} // verus!
