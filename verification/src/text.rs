//! Character-level text model: whitespace, trimming, line splitting,
//! word splitting and the decimal rendering of line numbers.
//!
//! Every executable scanner here works on a `Vec<char>` holding the input
//! and a half-open range `[start, end)` of it, and is proved against a
//! recursive specification over `Seq<char>`.
use vstd::prelude::*;

verus! {

/// The Unicode `White_Space` property, which is what `char::is_whitespace`
/// tests: U+0009..U+000D, U+0020, U+0085, U+00A0, U+1680, U+2000..U+200A,
/// U+2028, U+2029, U+202F, U+205F and U+3000.
pub open spec fn is_ws(c: char) -> bool {
    ||| ('\u{9}' <= c && c <= '\u{d}')
    ||| c == ' '
    ||| c == '\u{85}'
    ||| c == '\u{a0}'
    ||| c == '\u{1680}'
    ||| ('\u{2000}' <= c && c <= '\u{200a}')
    ||| c == '\u{2028}'
    ||| c == '\u{2029}'
    ||| c == '\u{202f}'
    ||| c == '\u{205f}'
    ||| c == '\u{3000}'
}

/// A character that may appear in a tool name: an ASCII letter or digit,
/// `-`, `_` or `.`.
pub open spec fn is_name_char(c: char) -> bool {
    ||| ('a' <= c && c <= 'z')
    ||| ('A' <= c && c <= 'Z')
    ||| ('0' <= c && c <= '9')
    ||| c == '-'
    ||| c == '_'
    ||| c == '.'
}

/// A valid tool name is non-empty and made of name characters only.
pub open spec fn is_valid_tool_name(s: Seq<char>) -> bool {
    &&& s.len() > 0
    &&& forall|i: int| 0 <= i < s.len() ==> #[trigger] is_name_char(s[i])
}

/// `s` with its leading whitespace removed.
pub open spec fn trim_start(s: Seq<char>) -> Seq<char>
    decreases s.len(),
{
    if s.len() > 0 && is_ws(s[0]) {
        trim_start(s.drop_first())
    } else {
        s
    }
}

/// `s` with its trailing whitespace removed.
pub open spec fn trim_end(s: Seq<char>) -> Seq<char>
    decreases s.len(),
{
    if s.len() > 0 && is_ws(s.last()) {
        trim_end(s.drop_last())
    } else {
        s
    }
}

/// `s` with whitespace removed at both ends.
pub open spec fn trim(s: Seq<char>) -> Seq<char> {
    trim_end(trim_start(s))
}

/// The index of the first `#` in `s`, or `s.len()` when there is none.
pub open spec fn hash_pos(s: Seq<char>) -> int
    decreases s.len(),
{
    if s.len() == 0 {
        0
    } else if s[0] == '#' {
        0
    } else {
        1 + hash_pos(s.drop_first())
    }
}

/// Splitting by whitespace, read left to right: the words completed so far
/// and the word still being read (empty after whitespace).
pub open spec fn split_words(s: Seq<char>) -> (Seq<Seq<char>>, Seq<char>)
    decreases s.len(),
{
    if s.len() == 0 {
        (seq![], seq![])
    } else {
        let (done, cur) = split_words(s.drop_last());
        if is_ws(s.last()) {
            if cur.len() == 0 {
                (done, cur)
            } else {
                (done.push(cur), seq![])
            }
        } else {
            (done, cur.push(s.last()))
        }
    }
}

/// The maximal runs of non-whitespace characters of `s`, in order.
pub open spec fn words(s: Seq<char>) -> Seq<Seq<char>> {
    let (done, cur) = split_words(s);
    if cur.len() == 0 {
        done
    } else {
        done.push(cur)
    }
}

/// Splitting at `\n`, read left to right: the lines ended by a `\n` so far
/// (without it) and the text after the last `\n`.
pub open spec fn split_terminated(s: Seq<char>) -> (Seq<Seq<char>>, Seq<char>)
    decreases s.len(),
{
    if s.len() == 0 {
        (seq![], seq![])
    } else {
        let (done, cur) = split_terminated(s.drop_last());
        if s.last() == '\n' {
            (done.push(cur), seq![])
        } else {
            (done, cur.push(s.last()))
        }
    }
}

/// A line that was ended by `\n` loses one `\r` before it.
pub open spec fn strip_cr(l: Seq<char>) -> Seq<char> {
    if l.len() > 0 && l.last() == '\r' {
        l.drop_last()
    } else {
        l
    }
}

/// Lines that were ended by `\n`, each with one `\r` before the `\n`
/// dropped.
pub open spec fn ended_lines(done: Seq<Seq<char>>) -> Seq<Seq<char>> {
    done.map_values(|l: Seq<char>| strip_cr(l))
}

/// The lines of `s` as `str::lines` yields them: split at `\n`, a `\r`
/// right before a `\n` dropped, and no empty line after a final `\n`.
pub open spec fn lines(s: Seq<char>) -> Seq<Seq<char>> {
    let (done, cur) = split_terminated(s);
    if cur.len() == 0 {
        ended_lines(done)
    } else {
        ended_lines(done).push(cur)
    }
}

/// The lines ended within a prefix of `s` begin the lines of `s`.
pub proof fn lemma_lines_prefix(s: Seq<char>, k: int)
    requires
        0 <= k <= s.len(),
    ensures
        ({
            let d = ended_lines(split_terminated(s.take(k)).0);
            &&& d.len() <= lines(s).len()
            &&& lines(s).take(d.len() as int) == d
        }),
{
    lemma_split_terminated_prefix(s, k);
    let d = split_terminated(s.take(k)).0;
    let full = split_terminated(s).0;
    assert(lines(s).take(d.len() as int) =~= ended_lines(d));
}

/// The lines ended within a prefix of `s` begin the lines ended in `s`.
pub proof fn lemma_split_terminated_prefix(s: Seq<char>, k: int)
    requires
        0 <= k <= s.len(),
    ensures
        split_terminated(s.take(k)).0.len() <= split_terminated(s).0.len(),
        split_terminated(s).0.take(split_terminated(s.take(k)).0.len() as int) == split_terminated(
            s.take(k),
        ).0,
    decreases s.len(),
{
    if k == s.len() {
        assert(s.take(k) =~= s);
    } else {
        let p = s.drop_last();
        assert(p.take(k) =~= s.take(k));
        lemma_split_terminated_prefix(p, k);
        let d = split_terminated(s.take(k)).0;
        let dp = split_terminated(p).0;
        let ds = split_terminated(s).0;
        assert(ds.take(d.len() as int) =~= dp.take(d.len() as int));
    }
}

/// A word that survives being written and read back: non-empty, with no
/// whitespace and no `#`.
pub open spec fn is_plain_word(w: Seq<char>) -> bool {
    &&& w.len() > 0
    &&& forall|i: int| 0 <= i < w.len() ==> !is_ws(#[trigger] w[i]) && w[i] != '#'
}

/// Appending text without `\n` extends the current line.
pub proof fn lemma_split_terminated_append(s: Seq<char>, t: Seq<char>)
    requires
        forall|i: int| 0 <= i < t.len() ==> t[i] != '\n',
    ensures
        split_terminated(s + t) == (split_terminated(s).0, split_terminated(s).1 + t),
    decreases t.len(),
{
    if t.len() == 0 {
        assert(s + t =~= s);
        assert(split_terminated(s).1 + t =~= split_terminated(s).1);
    } else {
        let p = t.drop_last();
        lemma_split_terminated_append(s, p);
        assert((s + t).drop_last() =~= s + p);
        assert((split_terminated(s).1 + p).push(t.last()) =~= split_terminated(s).1 + t);
    }
}

/// Text appended after a line ending splits on its own.
pub proof fn lemma_split_terminated_concat(a: Seq<char>, b: Seq<char>)
    requires
        split_terminated(a).1.len() == 0,
    ensures
        split_terminated(a + b) == (
            split_terminated(a).0 + split_terminated(b).0,
            split_terminated(b).1,
        ),
    decreases b.len(),
{
    if b.len() == 0 {
        assert(a + b =~= a);
        assert(split_terminated(a).0 + Seq::<Seq<char>>::empty() =~= split_terminated(a).0);
    } else {
        let q = b.drop_last();
        lemma_split_terminated_concat(a, q);
        assert((a + b).drop_last() =~= a + q);
        assert((a + b).last() == b.last());
        let d = split_terminated(a).0;
        let (dq, cq) = split_terminated(q);
        if b.last() == '\n' {
            assert((d + dq).push(cq) =~= d + dq.push(cq));
        }
    }
}

/// The lines of a text that follows an empty text or a `\n` are the lines
/// of the first text followed by those of the second.
pub proof fn lemma_lines_concat(a: Seq<char>, b: Seq<char>)
    requires
        a.len() == 0 || a.last() == '\n',
    ensures
        lines(a + b) == lines(a) + lines(b),
{
    if a.len() > 0 {
        assert(a.drop_last().push(a.last()) =~= a);
    }
    assert(split_terminated(a).1.len() == 0);
    lemma_split_terminated_concat(a, b);
    let d1 = split_terminated(a).0;
    let (d2, c2) = split_terminated(b);
    assert(ended_lines(d1 + d2) =~= ended_lines(d1) + ended_lines(d2));
    if c2.len() > 0 {
        assert((ended_lines(d1) + ended_lines(d2)).push(c2) =~= ended_lines(d1) + ended_lines(
            d2,
        ).push(c2));
    }
}

/// No line of a text holds a `\n`.
pub proof fn lemma_lines_no_newline(s: Seq<char>)
    ensures
        forall|k: int, i: int|
            0 <= k < lines(s).len() && 0 <= i < lines(s)[k].len() ==> lines(s)[k][i] != '\n',
{
    lemma_split_terminated_no_newline(s);
    let (done, cur) = split_terminated(s);
    assert forall|k: int, i: int|
        0 <= k < lines(s).len() && 0 <= i < lines(s)[k].len() implies lines(s)[k][i] != '\n' by {
        if k < done.len() {
            let l = done[k];
            assert(lines(s)[k] == strip_cr(l));
            if l.len() > 0 && l.last() == '\r' {
                assert(strip_cr(l)[i] == l[i]);
            }
        }
    }
}

/// The pieces of `split_terminated` hold no `\n`.
pub proof fn lemma_split_terminated_no_newline(s: Seq<char>)
    ensures
        forall|k: int, i: int|
            0 <= k < split_terminated(s).0.len() && 0 <= i < split_terminated(s).0[k].len()
                ==> split_terminated(s).0[k][i] != '\n',
        forall|i: int|
            0 <= i < split_terminated(s).1.len() ==> split_terminated(s).1[i] != '\n',
    decreases s.len(),
{
    if s.len() > 0 {
        let q = s.drop_last();
        lemma_split_terminated_no_newline(q);
        let (d, c) = split_terminated(q);
        if s.last() == '\n' {
            assert forall|k: int, i: int|
                0 <= k < d.push(c).len() && 0 <= i < d.push(c)[k].len() implies d.push(c)[k][i]
                != '\n' by {
                if k < d.len() {
                    assert(d.push(c)[k] == d[k]);
                }
            }
        } else {
            assert forall|i: int| 0 <= i < c.push(s.last()).len() implies c.push(s.last())[i]
                != '\n' by {
                if i < c.len() {
                    assert(c.push(s.last())[i] == c[i]);
                }
            }
        }
    }
}

/// Appending text without whitespace extends the current word.
pub proof fn lemma_split_words_append(s: Seq<char>, w: Seq<char>)
    requires
        forall|i: int| 0 <= i < w.len() ==> !is_ws(#[trigger] w[i]),
    ensures
        split_words(s + w) == (split_words(s).0, split_words(s).1 + w),
    decreases w.len(),
{
    if w.len() == 0 {
        assert(s + w =~= s);
        assert(split_words(s).1 + w =~= split_words(s).1);
    } else {
        let p = w.drop_last();
        lemma_split_words_append(s, p);
        assert((s + w).drop_last() =~= s + p);
        assert(!is_ws(w[w.len() - 1]));
        assert((split_words(s).1 + p).push(w.last()) =~= split_words(s).1 + w);
    }
}

/// The words of a text are non-empty and hold only non-whitespace
/// characters of the text that satisfy `p`, when all its non-whitespace
/// characters do.
pub proof fn lemma_words_chars(s: Seq<char>, p: spec_fn(char) -> bool)
    requires
        forall|i: int| 0 <= i < s.len() && !is_ws(s[i]) ==> p(s[i]),
    ensures
        forall|k: int| 0 <= k < words(s).len() ==> words(s)[k].len() > 0,
        forall|k: int, i: int|
            0 <= k < words(s).len() && 0 <= i < words(s)[k].len() ==> !is_ws(words(s)[k][i]) && p(
                words(s)[k][i],
            ),
{
    lemma_split_words_chars(s, p);
}

/// The pieces of `split_words` as `lemma_words_chars` states them.
pub proof fn lemma_split_words_chars(s: Seq<char>, p: spec_fn(char) -> bool)
    requires
        forall|i: int| 0 <= i < s.len() && !is_ws(s[i]) ==> p(s[i]),
    ensures
        forall|k: int| 0 <= k < split_words(s).0.len() ==> split_words(s).0[k].len() > 0,
        forall|k: int, i: int|
            0 <= k < split_words(s).0.len() && 0 <= i < split_words(s).0[k].len() ==> !is_ws(
                split_words(s).0[k][i],
            ) && p(split_words(s).0[k][i]),
        forall|i: int|
            0 <= i < split_words(s).1.len() ==> !is_ws(split_words(s).1[i]) && p(
                split_words(s).1[i],
            ),
    decreases s.len(),
{
    if s.len() > 0 {
        let q = s.drop_last();
        assert forall|i: int| 0 <= i < q.len() && !is_ws(q[i]) implies p(q[i]) by {
            assert(q[i] == s[i]);
        }
        lemma_split_words_chars(q, p);
        let (d, c) = split_words(q);
        let x = s.last();
        assert(!is_ws(x) ==> p(x)) by {
            assert(x == s[s.len() - 1]);
        }
        if is_ws(x) {
            if c.len() > 0 {
                assert forall|k: int, i: int|
                    0 <= k < d.push(c).len() && 0 <= i < d.push(c)[k].len() implies !is_ws(
                    d.push(c)[k][i],
                ) && p(d.push(c)[k][i]) by {
                    if k < d.len() {
                        assert(d.push(c)[k] == d[k]);
                    }
                }
                assert forall|k: int| 0 <= k < d.push(c).len() implies d.push(c)[k].len()
                    > 0 by {
                    if k < d.len() {
                        assert(d.push(c)[k] == d[k]);
                    }
                }
            }
        } else {
            assert forall|i: int| 0 <= i < c.push(x).len() implies !is_ws(c.push(x)[i]) && p(
                c.push(x)[i],
            ) by {
                if i < c.len() {
                    assert(c.push(x)[i] == c[i]);
                }
            }
        }
    }
}

/// Every character before the first `#` is not a `#`.
pub proof fn lemma_hash_pos(s: Seq<char>)
    ensures
        0 <= hash_pos(s) <= s.len(),
        forall|i: int| 0 <= i < hash_pos(s) ==> s[i] != '#',
        hash_pos(s) < s.len() ==> s[hash_pos(s)] == '#',
    decreases s.len(),
{
    if s.len() > 0 && s[0] != '#' {
        lemma_hash_pos(s.drop_first());
        assert forall|i: int| 0 <= i < hash_pos(s) implies s[i] != '#' by {
            if i > 0 {
                assert(s[i] == s.drop_first()[i - 1]);
            }
        }
    }
}

/// A text without `#` has its first `#` at its end.
pub proof fn lemma_hash_pos_none(s: Seq<char>)
    requires
        forall|i: int| 0 <= i < s.len() ==> s[i] != '#',
    ensures
        hash_pos(s) == s.len(),
{
    lemma_hash_pos(s);
    if hash_pos(s) < s.len() {
        assert(s[hash_pos(s)] == '#');
    }
}

/// A text that begins and ends with non-whitespace is its own trim.
pub proof fn lemma_trim_unchanged(s: Seq<char>)
    requires
        s.len() > 0,
        !is_ws(s[0]),
        !is_ws(s.last()),
    ensures
        trim(s) == s,
{
}

/// Trimming keeps only characters of the text: a property of every
/// character of the text holds of every character of its trim.
pub proof fn lemma_trim_chars(s: Seq<char>, p: spec_fn(char) -> bool)
    requires
        forall|i: int| 0 <= i < s.len() ==> p(s[i]),
    ensures
        forall|i: int| 0 <= i < trim(s).len() ==> p(trim(s)[i]),
{
    lemma_trim_start_chars(s, p);
    lemma_trim_end_chars(trim_start(s), p);
}

/// `lemma_trim_chars` for the leading whitespace.
proof fn lemma_trim_start_chars(s: Seq<char>, p: spec_fn(char) -> bool)
    requires
        forall|i: int| 0 <= i < s.len() ==> p(s[i]),
    ensures
        forall|i: int| 0 <= i < trim_start(s).len() ==> p(trim_start(s)[i]),
    decreases s.len(),
{
    if s.len() > 0 && is_ws(s[0]) {
        let d = s.drop_first();
        assert forall|i: int| 0 <= i < d.len() implies p(d[i]) by {
            assert(d[i] == s[i + 1]);
        }
        lemma_trim_start_chars(d, p);
        assert(trim_start(s) == trim_start(d));
    } else {
        assert(trim_start(s) == s);
    }
}

/// `lemma_trim_chars` for the trailing whitespace.
proof fn lemma_trim_end_chars(s: Seq<char>, p: spec_fn(char) -> bool)
    requires
        forall|i: int| 0 <= i < s.len() ==> p(s[i]),
    ensures
        forall|i: int| 0 <= i < trim_end(s).len() ==> p(trim_end(s)[i]),
    decreases s.len(),
{
    if s.len() > 0 && is_ws(s.last()) {
        let d = s.drop_last();
        assert forall|i: int| 0 <= i < d.len() implies p(d[i]) by {
            assert(d[i] == s[i]);
        }
        lemma_trim_end_chars(d, p);
        assert(trim_end(s) == trim_end(d));
    } else {
        assert(trim_end(s) == s);
    }
}

/// A non-empty trim ends with a non-whitespace character.
pub proof fn lemma_trim_last(s: Seq<char>)
    ensures
        trim(s).len() > 0 ==> !is_ws(trim(s).last()),
{
    lemma_trim_end_last(trim_start(s));
}

/// `lemma_trim_last` for the trailing whitespace alone.
proof fn lemma_trim_end_last(s: Seq<char>)
    ensures
        trim_end(s).len() > 0 ==> !is_ws(trim_end(s).last()),
    decreases s.len(),
{
    if s.len() > 0 && is_ws(s.last()) {
        lemma_trim_end_last(s.drop_last());
    }
}

/// Appending a character after a non-blank text does not change where its
/// leading whitespace ends.
pub proof fn lemma_trim_start_push(d: Seq<char>, x: char)
    requires
        trim_start(d).len() > 0,
    ensures
        trim_start(d.push(x)) == trim_start(d).push(x),
    decreases d.len(),
{
    if d.len() > 0 && is_ws(d[0]) {
        assert(d.push(x).drop_first() =~= d.drop_first().push(x));
        lemma_trim_start_push(d.drop_first(), x);
    }
}

/// Dropping a final `\r` does not change the trim of a non-blank text.
pub proof fn lemma_trim_strip_cr(c: Seq<char>)
    requires
        trim(c).len() > 0,
    ensures
        trim(strip_cr(c)) == trim(c),
{
    if c.len() > 0 && c.last() == '\r' {
        let d = c.drop_last();
        assert(d.push('\r') =~= c);
        if trim_start(d).len() > 0 {
            lemma_trim_start_push(d, '\r');
            assert(trim_start(d).push('\r').drop_last() =~= trim_start(d));
        } else {
            lemma_trim_start_blank(d, '\r');
            assert(seq!['\r'].drop_first() =~= Seq::<char>::empty());
            assert(trim_start(seq!['\r']) == trim_start(Seq::<char>::empty()));
        }
    }
}

/// A blank text followed by a character trims like the character alone.
pub proof fn lemma_trim_start_blank(d: Seq<char>, x: char)
    requires
        trim_start(d).len() == 0,
    ensures
        trim_start(d.push(x)) == trim_start(seq![x]),
    decreases d.len(),
{
    if d.len() > 0 {
        assert(d.push(x).drop_first() =~= d.drop_first().push(x));
        lemma_trim_start_blank(d.drop_first(), x);
    } else {
        assert(d.push(x) =~= seq![x]);
    }
}

/// The character of a decimal digit.
pub open spec fn digit_char(d: nat) -> char {
    ((48 + d) as u8) as char
}

/// The decimal representation of `n`, without leading zeros.
pub open spec fn decimal(n: nat) -> Seq<char>
    decreases n,
{
    if n < 10 {
        seq![digit_char(n)]
    } else {
        decimal(n / 10).push(digit_char(n % 10))
    }
}

/// Whether `c` is whitespace; this is `char::is_whitespace`.
pub fn is_whitespace(c: char) -> (r: bool)
    ensures
        r == is_ws(c),
{
    ('\u{9}' <= c && c <= '\u{d}') || c == ' ' || c == '\u{85}' || c == '\u{a0}' || c
        == '\u{1680}' || ('\u{2000}' <= c && c <= '\u{200a}') || c == '\u{2028}' || c
        == '\u{2029}' || c == '\u{202f}' || c == '\u{205f}' || c == '\u{3000}'
}

/// Whether `c` may appear in a tool name.
pub fn is_tool_name_char(c: char) -> (r: bool)
    ensures
        r == is_name_char(c),
{
    ('a' <= c && c <= 'z') || ('A' <= c && c <= 'Z') || ('0' <= c && c <= '9') || c == '-' || c
        == '_' || c == '.'
}

/// Appends one character to a string with `String::push`. Trusted: the
/// contract claims that the string's characters afterwards are the old ones
/// followed by `c`.
#[verifier::external_body]
pub(crate) fn push_char(s: &mut String, c: char)
    ensures
        final(s)@ == old(s)@.push(c),
{
    s.push(c);
}

/// The characters of `s`, in order.
pub fn chars_of(s: &str) -> (r: Vec<char>)
    ensures
        r@ == s@,
{
    broadcast use vstd::string::group_string_axioms;

    let mut v: Vec<char> = Vec::new();
    for c in it: s.chars()
        invariant
            v@ == it.seq().take(it.index() as int),
    {
        v.push(c);
    }
    v
}

/// The characters `cs[start..end]` as a string.
pub fn string_of(cs: &Vec<char>, start: usize, end: usize) -> (r: String)
    requires
        start <= end <= cs@.len(),
    ensures
        r@ == cs@.subrange(start as int, end as int),
{
    let mut s = String::new();
    let mut i = start;
    while i < end
        invariant
            start <= i <= end <= cs@.len(),
            s@ == cs@.subrange(start as int, i as int),
        decreases end - i,
    {
        push_char(&mut s, cs[i]);
        i = i + 1;
        assert(s@ =~= cs@.subrange(start as int, i as int));
    }
    s
}

/// The bounds of `trim(cs[start..end])` inside `cs`.
pub fn trim_range(cs: &Vec<char>, start: usize, end: usize) -> (r: (usize, usize))
    requires
        start <= end <= cs@.len(),
    ensures
        start <= r.0 <= r.1 <= end,
        cs@.subrange(r.0 as int, r.1 as int) == trim(cs@.subrange(start as int, end as int)),
{
    let ghost s = cs@.subrange(start as int, end as int);
    let mut i = start;
    while i < end && is_whitespace(cs[i])
        invariant
            start <= i <= end <= cs@.len(),
            trim_start(s) == trim_start(cs@.subrange(i as int, end as int)),
        decreases end - i,
    {
        assert(cs@.subrange(i as int, end as int).drop_first() =~= cs@.subrange(
            i + 1,
            end as int,
        ));
        i = i + 1;
    }
    assert(trim_start(cs@.subrange(i as int, end as int)) == cs@.subrange(i as int, end as int));
    let ghost t = cs@.subrange(i as int, end as int);
    let mut j = end;
    while j > i && is_whitespace(cs[j - 1])
        invariant
            start <= i <= j <= end <= cs@.len(),
            trim_end(t) == trim_end(cs@.subrange(i as int, j as int)),
        decreases j - i,
    {
        assert(cs@.subrange(i as int, j as int).drop_last() =~= cs@.subrange(
            i as int,
            j - 1,
        ));
        j = j - 1;
    }
    (i, j)
}

/// The index of the first `#` in `cs[start..end]`, or `end`.
pub fn find_hash(cs: &Vec<char>, start: usize, end: usize) -> (r: usize)
    requires
        start <= end <= cs@.len(),
    ensures
        start <= r <= end,
        r - start == hash_pos(cs@.subrange(start as int, end as int)),
{
    let mut i = start;
    while i < end && cs[i] != '#'
        invariant
            start <= i <= end <= cs@.len(),
            hash_pos(cs@.subrange(start as int, end as int)) == (i - start) + hash_pos(
                cs@.subrange(i as int, end as int),
            ),
        decreases end - i,
    {
        assert(cs@.subrange(i as int, end as int).drop_first() =~= cs@.subrange(
            i + 1,
            end as int,
        ));
        i = i + 1;
    }
    i
}

/// The bounds inside `cs` of the words of `cs[start..end]`.
pub fn word_ranges(cs: &Vec<char>, start: usize, end: usize) -> (r: Vec<(usize, usize)>)
    requires
        start <= end <= cs@.len(),
    ensures
        r@.len() == words(cs@.subrange(start as int, end as int)).len(),
        forall|k: int|
            0 <= k < r@.len() ==> {
                &&& start <= #[trigger] r@[k].0 < r@[k].1 <= end
                &&& cs@.subrange(r@[k].0 as int, r@[k].1 as int) == words(
                    cs@.subrange(start as int, end as int),
                )[k]
            },
{
    let mut ranges: Vec<(usize, usize)> = Vec::new();
    let mut cur_start = start;
    let mut i = start;
    while i < end
        invariant
            start <= cur_start <= i <= end <= cs@.len(),
            ranges@.len() == split_words(cs@.subrange(start as int, i as int)).0.len(),
            split_words(cs@.subrange(start as int, i as int)).1 == cs@.subrange(
                cur_start as int,
                i as int,
            ),
            forall|k: int|
                0 <= k < ranges@.len() ==> {
                    &&& start <= #[trigger] ranges@[k].0 < ranges@[k].1 <= end
                    &&& cs@.subrange(ranges@[k].0 as int, ranges@[k].1 as int) == split_words(
                        cs@.subrange(start as int, i as int),
                    ).0[k]
                },
        decreases end - i,
    {
        let ghost prev = split_words(cs@.subrange(start as int, i as int));
        assert(cs@.subrange(start as int, i + 1).drop_last() =~= cs@.subrange(
            start as int,
            i as int,
        ));
        if is_whitespace(cs[i]) {
            if cur_start < i {
                ranges.push((cur_start, i));
            }
            cur_start = i + 1;
        } else {
            assert(cs@.subrange(cur_start as int, i + 1) =~= cs@.subrange(
                cur_start as int,
                i as int,
            ).push(cs@[i as int]));
        }
        i = i + 1;
    }
    if cur_start < end {
        ranges.push((cur_start, end));
    }
    ranges
}

/// Whether `cs[start..end]` is a valid tool name.
pub fn is_valid_name_range(cs: &Vec<char>, start: usize, end: usize) -> (r: bool)
    requires
        start <= end <= cs@.len(),
    ensures
        r == is_valid_tool_name(cs@.subrange(start as int, end as int)),
{
    let ghost s = cs@.subrange(start as int, end as int);
    if start == end {
        return false;
    }
    let mut i = start;
    while i < end
        invariant
            start <= i <= end <= cs@.len(),
            s == cs@.subrange(start as int, end as int),
            forall|j: int| 0 <= j < i - start ==> #[trigger] is_name_char(s[j]),
        decreases end - i,
    {
        if !is_tool_name_char(cs[i]) {
            assert(!is_name_char(s[i - start]));
            return false;
        }
        i = i + 1;
    }
    true
}

/// Appends the decimal representation of `n` to `s`.
pub fn push_decimal(s: &mut String, n: usize)
    ensures
        final(s)@ == old(s)@ + decimal(n as nat),
    decreases n,
{
    if n >= 10 {
        push_decimal(s, n / 10);
    }
    let d: u8 = (n % 10) as u8;
    let c = (48u8 + d) as char;
    push_char(s, c);
    assert(s@ =~= old(s)@ + decimal(n as nat));
}

} // verus!
