//! Character classes and the basic verified text operations the pipeline is
//! built from: first-occurrence scans, whitespace trimming, splitting into
//! lines, and substring search.

use vstd::prelude::*;
use vstd::string::StrSliceExecFns;

verus! {

/// The characters with the Unicode `White_Space` property — the set that
/// `char::is_whitespace` recognises — used when trimming and when splitting
/// a value into whitespace-separated tokens.
pub open spec fn is_space(c: char) -> bool {
    c == ' ' || c == '\t' || c == '\n' || c == '\r' || c == '\u{b}' || c == '\u{c}'
        || c == '\u{85}' || c == '\u{a0}' || c == '\u{1680}' || (0x2000 <= c as u32 && c as u32
        <= 0x200a) || c == '\u{2028}' || c == '\u{2029}' || c == '\u{202f}' || c == '\u{205f}'
        || c == '\u{3000}'
}

/// ASCII letters; the first character of a candidate entry line must be one.
pub open spec fn is_alpha(c: char) -> bool {
    (97 <= c as u32 && c as u32 <= 122) || (65 <= c as u32 && c as u32 <= 90)
}

pub fn is_space_char(c: char) -> (b: bool)
    ensures
        b == is_space(c),
{
    let u = c as u32;
    c == ' ' || c == '\t' || c == '\n' || c == '\r' || c == '\u{b}' || c == '\u{c}'
        || c == '\u{85}' || c == '\u{a0}' || c == '\u{1680}' || (0x2000 <= u && u <= 0x200a)
        || c == '\u{2028}' || c == '\u{2029}' || c == '\u{202f}' || c == '\u{205f}'
        || c == '\u{3000}'
}

pub fn is_alpha_char(c: char) -> (b: bool)
    ensures
        b == is_alpha(c),
{
    let u = c as u32;
    (97 <= u && u <= 122) || (65 <= u && u <= 90)
}

/// Index of the first occurrence of `c` at or after `from`, or `s.len()`
/// when there is none.
pub open spec fn find_char(s: Seq<char>, from: int, c: char) -> int
    decreases s.len() - from when 0 <= from <= s.len()
{
    if from >= s.len() {
        s.len() as int
    } else if s[from] == c {
        from
    } else {
        find_char(s, from + 1, c)
    }
}

pub proof fn lemma_find_char(s: Seq<char>, from: int, c: char)
    requires
        0 <= from <= s.len(),
    ensures
        from <= find_char(s, from, c) <= s.len(),
        forall|j: int| from <= j < find_char(s, from, c) ==> s[j] != c,
        find_char(s, from, c) < s.len() ==> s[find_char(s, from, c)] == c,
    decreases s.len() - from,
{
    if from < s.len() && s[from] != c {
        lemma_find_char(s, from + 1, c);
    }
}

/// Index of the first non-whitespace character at or after `from`, or
/// `s.len()` when the rest is all whitespace.
pub open spec fn skip_spaces(s: Seq<char>, from: int) -> int
    decreases s.len() - from when 0 <= from <= s.len()
{
    if from >= s.len() {
        s.len() as int
    } else if !is_space(s[from]) {
        from
    } else {
        skip_spaces(s, from + 1)
    }
}

pub proof fn lemma_skip_spaces(s: Seq<char>, from: int)
    requires
        0 <= from <= s.len(),
    ensures
        from <= skip_spaces(s, from) <= s.len(),
        forall|j: int| from <= j < skip_spaces(s, from) ==> is_space(s[j]),
        skip_spaces(s, from) < s.len() ==> !is_space(s[skip_spaces(s, from)]),
    decreases s.len() - from,
{
    if from < s.len() && is_space(s[from]) {
        lemma_skip_spaces(s, from + 1);
    }
}

/// Index of the first whitespace character at or after `from`, or `s.len()`.
pub open spec fn find_space(s: Seq<char>, from: int) -> int
    decreases s.len() - from when 0 <= from <= s.len()
{
    if from >= s.len() {
        s.len() as int
    } else if is_space(s[from]) {
        from
    } else {
        find_space(s, from + 1)
    }
}

pub proof fn lemma_find_space(s: Seq<char>, from: int)
    requires
        0 <= from <= s.len(),
    ensures
        from <= find_space(s, from) <= s.len(),
        forall|j: int| from <= j < find_space(s, from) ==> !is_space(s[j]),
        find_space(s, from) < s.len() ==> is_space(s[find_space(s, from)]),
    decreases s.len() - from,
{
    if from < s.len() && !is_space(s[from]) {
        lemma_find_space(s, from + 1);
    }
}

pub fn find_char_in(s: &str, n: usize, from: usize, c: char) -> (r: usize)
    requires
        n == s@.len(),
        from <= n,
    ensures
        r == find_char(s@, from as int, c),
        from <= r <= n,
{
    proof {
        lemma_find_char(s@, from as int, c);
    }
    let mut i = from;
    while i < n
        invariant
            n == s@.len(),
            from <= i <= n,
            forall|j: int| from <= j < i ==> s@[j] != c,
        decreases n - i,
    {
        if s.get_char(i) == c {
            proof {
                lemma_find_char(s@, from as int, c);
                let f = find_char(s@, from as int, c);
                if f < i {
                    assert(s@[f] != c);
                    assert(s@[f] == c);
                }
                if f > i {
                    assert(s@[i as int] != c);
                }
            }
            return i;
        }
        i += 1;
    }
    i
}

pub fn skip_spaces_in(s: &str, n: usize, from: usize) -> (r: usize)
    requires
        n == s@.len(),
        from <= n,
    ensures
        r == skip_spaces(s@, from as int),
        from <= r <= n,
{
    proof {
        lemma_skip_spaces(s@, from as int);
    }
    let mut i = from;
    while i < n
        invariant
            n == s@.len(),
            from <= i <= n,
            forall|j: int| from <= j < i ==> is_space(s@[j]),
        decreases n - i,
    {
        if !is_space_char(s.get_char(i)) {
            proof {
                lemma_skip_spaces(s@, from as int);
                let f = skip_spaces(s@, from as int);
                if f < i {
                    assert(is_space(s@[f]));
                    assert(!is_space(s@[f]));
                }
                if f > i {
                    assert(is_space(s@[i as int]));
                }
            }
            return i;
        }
        i += 1;
    }
    i
}

pub fn find_space_in(s: &str, n: usize, from: usize) -> (r: usize)
    requires
        n == s@.len(),
        from <= n,
    ensures
        r == find_space(s@, from as int),
        from <= r <= n,
{
    proof {
        lemma_find_space(s@, from as int);
    }
    let mut i = from;
    while i < n
        invariant
            n == s@.len(),
            from <= i <= n,
            forall|j: int| from <= j < i ==> !is_space(s@[j]),
        decreases n - i,
    {
        if is_space_char(s.get_char(i)) {
            proof {
                lemma_find_space(s@, from as int);
                let f = find_space(s@, from as int);
                if f < i {
                    assert(!is_space(s@[f]));
                    assert(is_space(s@[f]));
                }
                if f > i {
                    assert(!is_space(s@[i as int]));
                }
            }
            return i;
        }
        i += 1;
    }
    i
}

/// One past the last non-whitespace character, or 0 when `s` is all
/// whitespace.
pub open spec fn trim_end(s: Seq<char>) -> int
    decreases s.len(),
{
    if s.len() == 0 {
        0
    } else if is_space(s.last()) {
        trim_end(s.drop_last())
    } else {
        s.len() as int
    }
}

pub proof fn lemma_trim_end(s: Seq<char>)
    ensures
        0 <= trim_end(s) <= s.len(),
        forall|j: int| trim_end(s) <= j < s.len() ==> is_space(s[j]),
        trim_end(s) > 0 ==> !is_space(s[trim_end(s) - 1]),
    decreases s.len(),
{
    if s.len() > 0 && is_space(s.last()) {
        lemma_trim_end(s.drop_last());
        assert forall|j: int| trim_end(s) <= j < s.len() implies is_space(s[j]) by {
            if j < s.len() - 1 {
                assert(s[j] == s.drop_last()[j]);
            }
        }
    }
}

/// `s` with surrounding whitespace removed.
pub open spec fn trim_spec(s: Seq<char>) -> Seq<char> {
    let a = skip_spaces(s, 0);
    let b = trim_end(s);
    if a >= b {
        Seq::empty()
    } else {
        s.subrange(a, b)
    }
}

pub fn trim_str(s: &str) -> (r: String)
    ensures
        r@ == trim_spec(s@),
{
    let n = s.unicode_len();
    let a = skip_spaces_in(s, n, 0);
    let mut b = n;
    while b > 0
        invariant
            n == s@.len(),
            b <= n,
            forall|j: int| b <= j < n ==> is_space(s@[j]),
        ensures
            b == 0 || !is_space(s@[b - 1]),
        decreases b,
    {
        if !is_space_char(s.get_char(b - 1)) {
            break;
        }
        b -= 1;
    }
    proof {
        lemma_trim_end(s@);
        lemma_skip_spaces(s@, 0);
        let t = trim_end(s@);
        if t < b {
            assert(is_space(s@[b - 1]));
        }
        if t > b {
            assert(is_space(s@[t - 1]));
        }
    }
    if a >= b {
        String::new()
    } else {
        s.substring_char(a, b).to_owned()
    }
}

/// A line with a final carriage return removed: line endings are `\n` or
/// `\r\n`, so the `\r` belongs to the ending, not the line.
pub open spec fn strip_cr(l: Seq<char>) -> Seq<char> {
    if l.len() > 0 && l.last() == '\r' {
        l.drop_last()
    } else {
        l
    }
}

/// The lines of `s`, exactly as `str::lines` splits them: segments between
/// `\n` characters, each with the `\r` of a `\r\n` ending stripped, no
/// empty final line when `s` ends in `\n`, and a final unterminated
/// segment kept verbatim.
pub open spec fn split_lines(s: Seq<char>) -> Seq<Seq<char>>
    decreases s.len(),
{
    if s.len() == 0 {
        Seq::empty()
    } else {
        let i = find_char(s, 0, '\n');
        if 0 <= i < s.len() {
            seq![strip_cr(s.subrange(0, i))] + split_lines(s.subrange(i + 1, s.len() as int))
        } else {
            seq![s]
        }
    }
}

proof fn lemma_split_lines_step(t: Seq<char>, start: int)
    requires
        0 <= start < t.len(),
    ensures
        ({
            let n = t.len() as int;
            let j = find_char(t, start, '\n');
            let sub = t.subrange(start, n);
            split_lines(sub) == if j < n {
                seq![strip_cr(t.subrange(start, j))] + split_lines(t.subrange(j + 1, n))
            } else {
                seq![sub]
            }
        }),
{
    let n = t.len() as int;
    let j = find_char(t, start, '\n');
    let sub = t.subrange(start, n);
    lemma_find_char(t, start, '\n');
    lemma_find_char(sub, 0, '\n');
    let f = find_char(sub, 0, '\n');
    assert(sub.len() == n - start);
    if f < j - start {
        assert(t[start + f] == sub[f]);
        assert(false);
    }
    if f > j - start {
        assert(j < n);
        assert(sub[j - start] == t[j]);
        assert(false);
    }
    assert(f == j - start);
    if j < n {
        assert(sub.subrange(0, f) =~= t.subrange(start, j));
        assert(sub.subrange(f + 1, sub.len() as int) =~= t.subrange(j + 1, n));
    }
}

pub fn split_lines_vec(s: &str) -> (v: Vec<String>)
    ensures
        v.deep_view() == split_lines(s@),
{
    let n = s.unicode_len();
    let mut v: Vec<String> = Vec::new();
    let mut start: usize = 0;
    proof {
        assert(s@.subrange(0, n as int) =~= s@);
        assert(v.deep_view() =~= Seq::<Seq<char>>::empty());
        assert(v.deep_view() + split_lines(s@.subrange(0, n as int)) =~= split_lines(s@));
    }
    while start < n
        invariant
            n == s@.len(),
            start <= n,
            split_lines(s@) == v.deep_view() + split_lines(s@.subrange(start as int, n as int)),
        decreases n - start,
    {
        let j = find_char_in(s, n, start, '\n');
        let line = if j < n {
            if j > start && s.get_char(j - 1) == '\r' {
                s.substring_char(start, j - 1).to_owned()
            } else {
                s.substring_char(start, j).to_owned()
            }
        } else {
            s.substring_char(start, n).to_owned()
        };
        proof {
            lemma_split_lines_step(s@, start as int);
            if j < n {
                let piece = s@.subrange(start as int, j as int);
                if j > start && s@[j - 1] == '\r' {
                    assert(piece.drop_last() =~= s@.subrange(start as int, j - 1));
                }
                assert(line@ == strip_cr(piece));
            }
        }
        let ghost old_dv = v.deep_view();
        v.push(line);
        proof {
            assert(v.deep_view() =~= old_dv.push(line@));
        }
        if j < n {
            proof {
                let rest = split_lines(s@.subrange(j + 1, n as int));
                assert(split_lines(s@.subrange(start as int, n as int)) == seq![line@] + rest);
                assert(old_dv + (seq![line@] + rest) =~= old_dv.push(line@) + rest);
            }
            start = j + 1;
        } else {
            proof {
                let sub = s@.subrange(start as int, n as int);
                assert(split_lines(sub) == seq![line@]);
                assert(old_dv + seq![line@] =~= old_dv.push(line@));
                assert(s@.subrange(n as int, n as int) =~= Seq::<char>::empty());
                assert(old_dv.push(line@) + split_lines(s@.subrange(n as int, n as int))
                    =~= old_dv.push(line@));
            }
            start = n;
        }
    }
    proof {
        assert(s@.subrange(start as int, n as int) =~= Seq::<char>::empty());
        assert(v.deep_view() + split_lines(s@.subrange(start as int, n as int)) =~= v.deep_view());
    }
    v
}

/// `needle` occurs as a contiguous subsequence of `hay`.
pub open spec fn contains_seq(hay: Seq<char>, needle: Seq<char>) -> bool {
    exists|k: int|
        0 <= k && k + needle.len() <= hay.len() && #[trigger] hay.skip(k).take(
            needle.len() as int,
        ) == needle
}

/// The marker substring that identifies the interrupt-number enumeration:
/// the closing identifier of the selected block must contain it.
pub open spec fn irq_marker() -> Seq<char> {
    "IRQn_Type"@
}

fn marker_at(l: &str, n: usize, k: usize, m: &str) -> (b: bool)
    requires
        n == l@.len(),
        k + 9 <= n,
        m@ == irq_marker(),
        m@.len() == 9,
    ensures
        b == (l@.subrange(k as int, k as int + 9) == irq_marker()),
{
    let mut j: usize = 0;
    while j < 9
        invariant
            n == l@.len(),
            k + 9 <= n,
            m@ == irq_marker(),
            m@.len() == 9,
            j <= 9,
            forall|j2: int| 0 <= j2 < j ==> l@[k + j2] == m@[j2],
        decreases 9 - j,
    {
        if l.get_char(k + j) != m.get_char(j) {
            proof {
                assert(l@.subrange(k as int, k as int + 9)[j as int] == l@[k + j]);
            }
            return false;
        }
        j += 1;
    }
    proof {
        assert(l@.subrange(k as int, k as int + 9) =~= m@);
    }
    true
}

pub fn contains_marker(l: &str) -> (b: bool)
    ensures
        b == contains_seq(l@, irq_marker()),
{
    let m = "IRQn_Type";
    proof {
        reveal_strlit("IRQn_Type");
    }
    let n = l.unicode_len();
    if n < 9 {
        return false;
    }
    let mut k: usize = 0;
    while k <= n - 9
        invariant
            9 <= n == l@.len(),
            k <= n,
            m@ == irq_marker(),
            m@.len() == 9,
            forall|k2: int| 0 <= k2 < k ==> #[trigger] l@.skip(k2).take(9) != irq_marker(),
        decreases n - k,
    {
        let hit = marker_at(l, n, k, m);
        proof {
            assert(l@.skip(k as int).take(9) =~= l@.subrange(k as int, k as int + 9));
        }
        if hit {
            return true;
        }
        k += 1;
    }
    false
}

} // verus!
