//! Character-level text handling: whitespace, trimming, prefixes and line
//! splitting, all stated over `Seq<char>`.
use vstd::prelude::*;

verus! {

/// The characters that carry the Unicode `White_Space` property; these are the
/// characters that `char::is_whitespace` accepts and that `str::trim` removes.
pub open spec fn is_white_space(c: char) -> bool {
    ||| ('\u{9}' <= c && c <= '\u{d}')
    ||| c == ' '
    ||| c == '\u{85}'
    ||| c == '\u{a0}'
    ||| c == '\u{1680}'
    ||| ('\u{2000}' <= c && c <= '\u{200a}')
    ||| c == '\u{2028}'
    ||| c == '\u{2029}'
    ||| c == '\u{202f}'
    ||| c == '\u{205f}'
    ||| c == '\u{3000}'
}

/// `s` without its leading white space.
pub open spec fn trim_start(s: Seq<char>) -> Seq<char>
    decreases s.len(),
{
    if s.len() > 0 && is_white_space(s[0]) {
        trim_start(s.drop_first())
    } else {
        s
    }
}

/// `s` without its trailing white space.
pub open spec fn trim_end(s: Seq<char>) -> Seq<char>
    decreases s.len(),
{
    if s.len() > 0 && is_white_space(s.last()) {
        trim_end(s.drop_last())
    } else {
        s
    }
}

/// `s` without leading and trailing white space.
pub open spec fn trim(s: Seq<char>) -> Seq<char> {
    trim_end(trim_start(s))
}

/// `s` with every leading repetition of `pat` removed (`str::trim_start_matches`).
pub open spec fn strip_leading(s: Seq<char>, pat: Seq<char>) -> Seq<char>
    decreases s.len(),
{
    if pat.len() > 0 && pat.is_prefix_of(s) {
        strip_leading(s.skip(pat.len() as int), pat)
    } else {
        s
    }
}

/// `s` with every trailing repetition of `pat` removed (`str::trim_end_matches`).
pub open spec fn strip_trailing(s: Seq<char>, pat: Seq<char>) -> Seq<char>
    decreases s.len(),
{
    if pat.len() > 0 && pat.is_suffix_of(s) {
        strip_trailing(s.take(s.len() - pat.len()), pat)
    } else {
        s
    }
}

/// Number of characters before the first line feed of `s` (its length if it has none).
pub open spec fn newline_index(s: Seq<char>) -> nat
    decreases s.len(),
{
    if s.len() == 0 {
        0
    } else if s[0] == '\n' {
        0
    } else {
        1 + newline_index(s.drop_first())
    }
}

/// A line that ended with a line feed loses one carriage return before it.
pub open spec fn drop_cr(line: Seq<char>) -> Seq<char> {
    if line.len() > 0 && line.last() == '\r' {
        line.drop_last()
    } else {
        line
    }
}

/// The lines of `s`, as `str::lines` yields them: split after each line feed,
/// with the line feed and a carriage return right before it removed; a last
/// line without line feed is kept as it is; no empty line after a final line feed.
pub open spec fn lines(s: Seq<char>) -> Seq<Seq<char>>
    decreases s.len(),
{
    if s.len() == 0 {
        seq![]
    } else {
        let k = newline_index(s);
        if k < s.len() {
            seq![drop_cr(s.take(k as int))] + lines(s.skip(k + 1 as int))
        } else {
            seq![s]
        }
    }
}

/// `newline_index` is where the first line feed stands, or the length.
pub proof fn lemma_newline_index(s: Seq<char>)
    ensures
        newline_index(s) <= s.len(),
        newline_index(s) < s.len() ==> s[newline_index(s) as int] == '\n',
        forall|i: int| 0 <= i < newline_index(s) ==> s[i] != '\n',
    decreases s.len(),
{
    if s.len() > 0 && s[0] != '\n' {
        lemma_newline_index(s.drop_first());
        assert forall|i: int| 0 <= i < newline_index(s) implies s[i] != '\n' by {
            if i > 0 {
                assert(s[i] == s.drop_first()[i - 1]);
            }
        }
    }
}

/// A first line feed at `k` determines `newline_index`.
pub proof fn lemma_newline_index_at(s: Seq<char>, k: int)
    requires
        0 <= k <= s.len(),
        k < s.len() ==> s[k] == '\n',
        forall|i: int| 0 <= i < k ==> s[i] != '\n',
    ensures
        newline_index(s) == k,
    decreases s.len(),
{
    if s.len() > 0 && s[0] != '\n' {
        let t = s.drop_first();
        assert forall|i: int| 0 <= i < k - 1 implies t[i] != '\n' by {
            assert(t[i] == s[i + 1]);
        }
        lemma_newline_index_at(t, k - 1);
    }
}

/// `char::is_whitespace`, decided by the table of `is_white_space`.
pub fn is_white_space_char(c: char) -> (b: bool)
    ensures
        b == is_white_space(c),
{
    ('\u{9}' <= c && c <= '\u{d}') || c == ' ' || c == '\u{85}' || c == '\u{a0}' || c
        == '\u{1680}' || ('\u{2000}' <= c && c <= '\u{200a}') || c == '\u{2028}' || c
        == '\u{2029}' || c == '\u{202f}' || c == '\u{205f}' || c == '\u{3000}'
}

/// The characters of `s`, in order.
pub fn chars_of(s: &str) -> (v: Vec<char>)
    ensures
        v@ == s@,
{
    broadcast use vstd::string::group_string_axioms;

    let mut v: Vec<char> = Vec::new();
    for c in it: s.chars()
        invariant
            v@ == it.seq().take(it.index() as int),
    {
        v.push(c);
    }
    v
}

/// `String::push`: appends one character.
#[verifier::external_body]
pub(crate) fn push_char(s: &mut String, c: char)
    ensures
        final(s)@ == old(s)@.push(c),
{
    s.push(c)
}

/// Whether two string slices hold the same characters.
pub(crate) fn str_eq(a: &str, b: &str) -> (r: bool)
    ensures
        r == (a@ == b@),
{
    let x = chars_of(a);
    let y = chars_of(b);
    if x.len() != y.len() {
        return false;
    }
    let mut i: usize = 0;
    while i < x.len()
        invariant
            x@ == a@,
            y@ == b@,
            x@.len() == y@.len(),
            i <= x@.len(),
            forall|j: int| 0 <= j < i ==> x@[j] == y@[j],
        decreases x.len() - i,
    {
        if x[i] != y[i] {
            return false;
        }
        i = i + 1;
    }
    assert(x@ =~= y@);
    true
}

/// A new string holding the characters `cs[lo..hi]`.
pub fn string_from_chars(cs: &[char], lo: usize, hi: usize) -> (s: String)
    requires
        lo <= hi <= cs@.len(),
    ensures
        s@ == cs@.subrange(lo as int, hi as int),
{
    let mut s = String::new();
    let mut i = lo;
    while i < hi
        invariant
            lo <= i <= hi <= cs@.len(),
            s@ == cs@.subrange(lo as int, i as int),
        decreases hi - i,
    {
        push_char(&mut s, cs[i]);
        assert(cs@.subrange(lo as int, i + 1) =~= cs@.subrange(lo as int, i as int).push(cs@[i as int]));
        i = i + 1;
    }
    s
}

/// First position at or after `lo` that is not white space, so that
/// `cs[r..hi]` is `cs[lo..hi]` trimmed at its start.
pub fn skip_white_space(cs: &[char], lo: usize, hi: usize) -> (r: usize)
    requires
        lo <= hi <= cs@.len(),
    ensures
        lo <= r <= hi,
        cs@.subrange(r as int, hi as int) == trim_start(cs@.subrange(lo as int, hi as int)),
{
    let mut i = lo;
    while i < hi && is_white_space_char(cs[i])
        invariant
            lo <= i <= hi <= cs@.len(),
            trim_start(cs@.subrange(i as int, hi as int)) == trim_start(
                cs@.subrange(lo as int, hi as int),
            ),
        decreases hi - i,
    {
        assert(cs@.subrange(i as int, hi as int).drop_first() =~= cs@.subrange(i + 1, hi as int));
        i = i + 1;
    }
    i
}

/// Last position at or before `hi` such that `cs[lo..r]` is `cs[lo..hi]`
/// trimmed at its end.
pub fn skip_white_space_back(cs: &[char], lo: usize, hi: usize) -> (r: usize)
    requires
        lo <= hi <= cs@.len(),
    ensures
        lo <= r <= hi,
        cs@.subrange(lo as int, r as int) == trim_end(cs@.subrange(lo as int, hi as int)),
{
    let mut j = hi;
    while j > lo && is_white_space_char(cs[j - 1])
        invariant
            lo <= j <= hi <= cs@.len(),
            trim_end(cs@.subrange(lo as int, j as int)) == trim_end(
                cs@.subrange(lo as int, hi as int),
            ),
        decreases j - lo,
    {
        assert(cs@.subrange(lo as int, j as int).drop_last() =~= cs@.subrange(
            lo as int,
            j - 1,
        ));
        j = j - 1;
    }
    j
}

/// Whether `cs[lo..hi]` starts with `pat`.
pub fn starts_with_at(cs: &[char], lo: usize, hi: usize, pat: &[char]) -> (b: bool)
    requires
        lo <= hi <= cs@.len(),
    ensures
        b == pat@.is_prefix_of(cs@.subrange(lo as int, hi as int)),
{
    if pat.len() > hi - lo {
        return false;
    }
    let mut k: usize = 0;
    while k < pat.len()
        invariant
            pat@.len() <= hi - lo,
            lo <= hi <= cs@.len(),
            k <= pat@.len(),
            forall|m: int| 0 <= m < k ==> pat@[m] == cs@[lo + m],
        decreases pat.len() - k,
    {
        if pat[k] != cs[lo + k] {
            assert(cs@.subrange(lo as int, hi as int)[k as int] == cs@[lo + k]);
            return false;
        }
        k = k + 1;
    }
    assert(pat@ =~= cs@.subrange(lo as int, hi as int).subrange(0, pat@.len() as int));
    true
}

/// Whether `cs[lo..hi]` ends with `pat`.
pub fn ends_with_at(cs: &[char], lo: usize, hi: usize, pat: &[char]) -> (b: bool)
    requires
        lo <= hi <= cs@.len(),
    ensures
        b == pat@.is_suffix_of(cs@.subrange(lo as int, hi as int)),
{
    if pat.len() > hi - lo {
        return false;
    }
    let start = hi - pat.len();
    let mut k: usize = 0;
    while k < pat.len()
        invariant
            pat@.len() <= hi - lo,
            start == hi - pat@.len(),
            lo <= hi <= cs@.len(),
            k <= pat@.len(),
            forall|m: int| 0 <= m < k ==> pat@[m] == cs@[start + m],
        decreases pat.len() - k,
    {
        if pat[k] != cs[start + k] {
            let ghost w = cs@.subrange(lo as int, hi as int);
            assert(w.subrange(w.len() - pat@.len(), w.len() as int)[k as int] == cs@[start + k]);
            return false;
        }
        k = k + 1;
    }
    let ghost w = cs@.subrange(lo as int, hi as int);
    assert(pat@ =~= w.subrange(w.len() - pat@.len(), w.len() as int));
    true
}

/// Position after every leading repetition of `pat` in `cs[lo..hi]`.
pub fn strip_leading_at(cs: &[char], lo: usize, hi: usize, pat: &[char]) -> (r: usize)
    requires
        lo <= hi <= cs@.len(),
        pat@.len() > 0,
    ensures
        lo <= r <= hi,
        cs@.subrange(r as int, hi as int) == strip_leading(
            cs@.subrange(lo as int, hi as int),
            pat@,
        ),
{
    let mut i = lo;
    while starts_with_at(cs, i, hi, pat)
        invariant
            lo <= i <= hi <= cs@.len(),
            pat@.len() > 0,
            strip_leading(cs@.subrange(i as int, hi as int), pat@) == strip_leading(
                cs@.subrange(lo as int, hi as int),
                pat@,
            ),
        decreases hi - i,
    {
        assert(cs@.subrange(i as int, hi as int).skip(pat@.len() as int) =~= cs@.subrange(
            i + pat@.len(),
            hi as int,
        ));
        i = i + pat.len();
    }
    i
}

/// End of `cs[lo..hi]` once every trailing repetition of `pat` is removed.
pub fn strip_trailing_at(cs: &[char], lo: usize, hi: usize, pat: &[char]) -> (r: usize)
    requires
        lo <= hi <= cs@.len(),
        pat@.len() > 0,
    ensures
        lo <= r <= hi,
        cs@.subrange(lo as int, r as int) == strip_trailing(
            cs@.subrange(lo as int, hi as int),
            pat@,
        ),
{
    let mut j = hi;
    while ends_with_at(cs, lo, j, pat)
        invariant
            lo <= j <= hi <= cs@.len(),
            pat@.len() > 0,
            strip_trailing(cs@.subrange(lo as int, j as int), pat@) == strip_trailing(
                cs@.subrange(lo as int, hi as int),
                pat@,
            ),
        decreases j - lo,
    {
        assert(cs@.subrange(lo as int, j as int).take(j - lo - pat@.len()) =~= cs@.subrange(
            lo as int,
            j - pat@.len(),
        ));
        j = j - pat.len();
    }
    j
}

/// Index of the first line feed in `cs[lo..hi]`, or `hi` if there is none.
pub fn find_newline(cs: &[char], lo: usize, hi: usize) -> (r: usize)
    requires
        lo <= hi <= cs@.len(),
    ensures
        lo <= r <= hi,
        r == lo + newline_index(cs@.subrange(lo as int, hi as int)),
{
    let mut i = lo;
    while i < hi && cs[i] != '\n'
        invariant
            lo <= i <= hi <= cs@.len(),
            forall|m: int| lo <= m < i ==> cs@[m] != '\n',
        decreases hi - i,
    {
        i = i + 1;
    }
    proof {
        let w = cs@.subrange(lo as int, hi as int);
        lemma_newline_index_at(w, i - lo);
    }
    i
}

/// Whether `cs[lo..hi]` is a beginning of `pat`.
pub fn is_start_of(cs: &[char], lo: usize, hi: usize, pat: &[char]) -> (b: bool)
    requires
        lo <= hi <= cs@.len(),
    ensures
        b == cs@.subrange(lo as int, hi as int).is_prefix_of(pat@),
{
    if hi - lo > pat.len() {
        return false;
    }
    let mut k: usize = 0;
    while k < hi - lo
        invariant
            hi - lo <= pat@.len(),
            lo <= hi <= cs@.len(),
            k <= hi - lo,
            forall|m: int| 0 <= m < k ==> pat@[m] == cs@[lo + m],
        decreases hi - lo - k,
    {
        if pat[k] != cs[lo + k] {
            assert(cs@.subrange(lo as int, hi as int)[k as int] == cs@[lo + k]);
            return false;
        }
        k = k + 1;
    }
    assert(cs@.subrange(lo as int, hi as int) =~= pat@.subrange(0, hi - lo));
    true
}

/// Number of bytes that UTF-8 takes for `c`.
pub open spec fn utf8_width(c: char) -> nat {
    if (c as u32) < 0x80 {
        1
    } else if (c as u32) < 0x800 {
        2
    } else if (c as u32) < 0x10000 {
        3
    } else {
        4
    }
}

/// Number of bytes that UTF-8 takes for `s`: what `str::len` reports.
pub open spec fn utf8_len(s: Seq<char>) -> nat
    decreases s.len(),
{
    if s.len() == 0 {
        0
    } else {
        utf8_len(s.drop_last()) + utf8_width(s.last())
    }
}

/// Whether `cs[lo..hi]` takes more than `limit` bytes in UTF-8.
pub fn utf8_len_exceeds(cs: &[char], lo: usize, hi: usize, limit: usize) -> (b: bool)
    requires
        lo <= hi <= cs@.len(),
        limit < usize::MAX - 4,
    ensures
        b == (utf8_len(cs@.subrange(lo as int, hi as int)) > limit),
{
    let mut total: usize = 0;
    let mut i = lo;
    assert(cs@.subrange(lo as int, lo as int) =~= Seq::<char>::empty());
    while i < hi
        invariant
            lo <= i <= hi <= cs@.len(),
            limit < usize::MAX - 4,
            total == utf8_len(cs@.subrange(lo as int, i as int)),
            total <= limit,
        decreases hi - i,
    {
        let c = cs[i];
        let w: usize = if (c as u32) < 0x80 {
            1
        } else if (c as u32) < 0x800 {
            2
        } else if (c as u32) < 0x10000 {
            3
        } else {
            4
        };
        assert(cs@.subrange(lo as int, i + 1).drop_last() =~= cs@.subrange(lo as int, i as int));
        total = total + w;
        i = i + 1;
        if total > limit {
            proof {
                lemma_utf8_len_grows(cs@.subrange(lo as int, hi as int), i - lo);
                assert(cs@.subrange(lo as int, hi as int).take(i - lo) =~= cs@.subrange(lo as int, i as int));
            }
            return true;
        }
    }
    false
}

/// The UTF-8 length of a text is at least that of its beginnings.
pub proof fn lemma_utf8_len_grows(s: Seq<char>, k: int)
    requires
        0 <= k <= s.len(),
    ensures
        utf8_len(s.take(k)) <= utf8_len(s),
    decreases s.len() - k,
{
    if k < s.len() {
        lemma_utf8_len_grows(s, k + 1);
        assert(s.take(k + 1).drop_last() =~= s.take(k));
    } else {
        assert(s.take(k) =~= s);
    }
}

/// The first line feed of `s + t` is that of `s` where `s` has one.
proof fn lemma_newline_index_concat(s: Seq<char>, t: Seq<char>)
    requires
        newline_index(s) < s.len(),
    ensures
        newline_index(s + t) == newline_index(s),
{
    lemma_newline_index(s);
    let k = newline_index(s) as int;
    assert forall|i: int| 0 <= i < k implies (s + t)[i] != '\n' by {
        assert((s + t)[i] == s[i]);
    }
    lemma_newline_index_at(s + t, k);
}

/// Text that ends with a line feed splits into lines apart from what follows.
pub proof fn lemma_lines_append(s: Seq<char>, t: Seq<char>)
    requires
        s.len() == 0 || s.last() == '\n',
    ensures
        lines(s + t) == lines(s) + lines(t),
    decreases s.len(),
{
    if s.len() == 0 {
        assert(s + t =~= t);
        assert(lines(s) + lines(t) =~= lines(t));
    } else {
        lemma_newline_index(s);
        let k = newline_index(s) as int;
        if k == s.len() {
            assert(s[s.len() - 1] != '\n');
        }
        assert(k < s.len());
        lemma_newline_index_concat(s, t);
        let rest = s.skip(k + 1);
        assert((s + t).take(k) =~= s.take(k));
        assert((s + t).skip(k + 1) =~= rest + t);
        if rest.len() > 0 {
            assert(rest.last() == s.last());
        }
        lemma_lines_append(rest, t);
        assert(lines(s + t) == seq![drop_cr(s.take(k))] + lines(rest + t));
        assert(lines(s) == seq![drop_cr(s.take(k))] + lines(rest));
        assert(lines(s + t) =~= lines(s) + lines(t));
    }
}

} // verus!
