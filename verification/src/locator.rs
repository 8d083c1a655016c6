//! The block locator: a single-pass scanner that yields every substring of
//! the input shaped like `typedef enum ... } <identifier>;`, and the rule
//! that selects the interrupt enumeration among them.

use crate::text::contains_seq;
use crate::text::find_char;
use crate::text::find_char_in;
use crate::text::irq_marker;
use crate::text::lemma_find_char;
use crate::text::lemma_skip_spaces;
use crate::text::skip_spaces;
use crate::text::skip_spaces_in;
use crate::text::split_lines;
use vstd::prelude::*;
use vstd::string::StrSliceExecFns;

verus! {

/// End of the block match that begins exactly at `p`, if any: the text
/// must read `typedef`, then at least one whitespace character, then
/// `enum`, then optional whitespace and an opening brace, then anything up
/// to the first `}`, then at least one character before the first
/// following `;`. The result is the position one past that `;`.
///
/// Brace nesting inside the body is deliberately not tracked: the first `}`
/// terminates the block, matching the single-level shape of vendor
/// interrupt enumerations.
pub open spec fn match_end(s: Seq<char>, p: int) -> Option<int> {
    if !(0 <= p && p + 7 <= s.len() && s.subrange(p, p + 7) == "typedef"@) {
        None
    } else {
        let a = skip_spaces(s, p + 7);
        if a == p + 7 {
            None
        } else if !(a + 4 <= s.len() && s.subrange(a, a + 4) == "enum"@) {
            None
        } else {
            let w = skip_spaces(s, a + 4);
            if !(w < s.len() && s[w] == '{') {
                None
            } else {
                let c = find_char(s, w + 1, '}');
                if c >= s.len() {
                    None
                } else {
                    let d = find_char(s, c + 1, ';');
                    if d >= s.len() || d == c + 1 {
                        None
                    } else {
                        Some(d + 1)
                    }
                }
            }
        }
    }
}

pub proof fn lemma_match_end(s: Seq<char>, p: int)
    requires
        0 <= p <= s.len(),
    ensures
        match_end(s, p) is Some ==> p < match_end(s, p)->Some_0 <= s.len(),
{
    if p + 7 <= s.len() && s.subrange(p, p + 7) == "typedef"@ {
        lemma_skip_spaces(s, p + 7);
        let a = skip_spaces(s, p + 7);
        if a != p + 7 && a + 4 <= s.len() && s.subrange(a, a + 4) == "enum"@ {
            lemma_skip_spaces(s, a + 4);
            let w = skip_spaces(s, a + 4);
            if w < s.len() && s[w] == '{' {
                lemma_find_char(s, w + 1, '}');
                let c = find_char(s, w + 1, '}');
                if c < s.len() {
                    lemma_find_char(s, c + 1, ';');
                }
            }
        }
    }
}

/// First position at or after `t` where a block match begins, or `s.len()`.
pub open spec fn next_match(s: Seq<char>, t: int) -> int
    decreases s.len() - t when 0 <= t <= s.len()
{
    if t >= s.len() {
        t
    } else if match_end(s, t) is Some {
        t
    } else {
        next_match(s, t + 1)
    }
}

pub proof fn lemma_next_match(s: Seq<char>, t: int)
    requires
        0 <= t <= s.len(),
    ensures
        t <= next_match(s, t) <= s.len(),
        forall|u: int| t <= u < next_match(s, t) ==> #[trigger] match_end(s, u) is None,
        next_match(s, t) < s.len() ==> match_end(s, next_match(s, t)) is Some,
    decreases s.len() - t,
{
    if t < s.len() && match_end(s, t) is None {
        lemma_next_match(s, t + 1);
    }
}

/// The blocks the locator yields from position `t` on: the leftmost match,
/// then the blocks of the remaining text, scanning resuming at each match
/// end (matches do not overlap).
pub open spec fn blocks_from(s: Seq<char>, t: int) -> Seq<Seq<char>>
    decreases s.len() - t when 0 <= t <= s.len()
{
    let p = next_match(s, t);
    if t <= p < s.len() {
        match match_end(s, p) {
            Some(e) => {
                if p < e <= s.len() {
                    seq![s.subrange(p, e)] + blocks_from(s, e)
                } else {
                    Seq::empty()
                }
            },
            None => Seq::empty(),
        }
    } else {
        Seq::empty()
    }
}

/// All candidate blocks of the text, in text order.
pub open spec fn all_blocks(s: Seq<char>) -> Seq<Seq<char>> {
    blocks_from(s, 0)
}

pub proof fn lemma_blocks_miss(s: Seq<char>, t: int)
    requires
        0 <= t < s.len(),
        match_end(s, t) is None,
    ensures
        blocks_from(s, t) == blocks_from(s, t + 1),
{
    lemma_next_match(s, t);
    lemma_next_match(s, t + 1);
    assert(next_match(s, t) == next_match(s, t + 1));
}

pub proof fn lemma_blocks_hit(s: Seq<char>, t: int)
    requires
        0 <= t < s.len(),
        match_end(s, t) is Some,
    ensures
        blocks_from(s, t) == seq![s.subrange(t, match_end(s, t)->Some_0)] + blocks_from(
            s,
            match_end(s, t)->Some_0,
        ),
{
    lemma_match_end(s, t);
    assert(next_match(s, t) == t);
}

/// A located block is the interrupt enumeration exactly when its closing
/// line (the `} <identifier>;` statement, i.e. the first line once the
/// block's lines are viewed in reverse order) contains the interrupt-type
/// marker.
pub open spec fn block_selected(b: Seq<char>) -> bool {
    let ls = split_lines(b);
    ls.len() > 0 && contains_seq(ls.last(), irq_marker())
}

/// The first selected block, if any; later blocks are never inspected.
pub open spec fn first_selected(bs: Seq<Seq<char>>) -> Option<Seq<char>>
    decreases bs.len(),
{
    if bs.len() == 0 {
        None
    } else if block_selected(bs[0]) {
        Some(bs[0])
    } else {
        first_selected(bs.drop_first())
    }
}

fn literal_at(s: &str, n: usize, p: usize, lit: &str, m: usize) -> (b: bool)
    requires
        n == s@.len(),
        m == lit@.len(),
        p + m <= n,
    ensures
        b == (s@.subrange(p as int, p as int + m as int) == lit@),
{
    let mut j: usize = 0;
    while j < m
        invariant
            n == s@.len(),
            m == lit@.len(),
            p + m <= n,
            j <= m,
            forall|j2: int| 0 <= j2 < j ==> s@[p + j2] == lit@[j2],
        decreases m - j,
    {
        if s.get_char(p + j) != lit.get_char(j) {
            proof {
                assert(s@.subrange(p as int, p as int + m as int)[j as int] == s@[p + j]);
            }
            return false;
        }
        j += 1;
    }
    proof {
        assert(s@.subrange(p as int, p as int + m as int) =~= lit@);
    }
    true
}

/// Attempts a block match beginning exactly at `p`.
pub fn try_match(s: &str, n: usize, p: usize) -> (r: Option<usize>)
    requires
        n == s@.len(),
        p <= n,
    ensures
        match r {
            Some(e) => match_end(s@, p as int) == Some(e as int) && p < e <= n,
            None => match_end(s@, p as int) is None,
        },
{
    let t_lit = "typedef";
    let e_lit = "enum";
    proof {
        reveal_strlit("typedef");
        reveal_strlit("enum");
    }
    if n < 7 || p > n - 7 {
        return None;
    }
    if !literal_at(s, n, p, t_lit, 7) {
        return None;
    }
    let a = skip_spaces_in(s, n, p + 7);
    if a == p + 7 {
        return None;
    }
    if n < 4 || a > n - 4 {
        return None;
    }
    if !literal_at(s, n, a, e_lit, 4) {
        return None;
    }
    let w = skip_spaces_in(s, n, a + 4);
    if w == n {
        return None;
    }
    if s.get_char(w) != '{' {
        return None;
    }
    let c = find_char_in(s, n, w + 1, '}');
    if c == n {
        return None;
    }
    let d = find_char_in(s, n, c + 1, ';');
    if d == n || d == c + 1 {
        return None;
    }
    Some(d + 1)
}

/// Scans the whole text and collects every candidate block, leftmost first.
pub fn locate_enum_blocks(text: &str) -> (v: Vec<String>)
    ensures
        v.deep_view() == all_blocks(text@),
{
    let n = text.unicode_len();
    let mut v: Vec<String> = Vec::new();
    let mut pos: usize = 0;
    proof {
        assert(v.deep_view() =~= Seq::<Seq<char>>::empty());
        assert(v.deep_view() + blocks_from(text@, 0) =~= blocks_from(text@, 0));
    }
    while pos < n
        invariant
            n == text@.len(),
            pos <= n,
            all_blocks(text@) == v.deep_view() + blocks_from(text@, pos as int),
        decreases n - pos,
    {
        match try_match(text, n, pos) {
            Some(e) => {
                let b = text.substring_char(pos, e).to_owned();
                proof {
                    lemma_blocks_hit(text@, pos as int);
                }
                let ghost old_dv = v.deep_view();
                v.push(b);
                proof {
                    assert(v.deep_view() =~= old_dv.push(b@));
                    assert(old_dv + (seq![text@.subrange(pos as int, e as int)] + blocks_from(
                        text@,
                        e as int,
                    )) =~= old_dv.push(b@) + blocks_from(text@, e as int));
                }
                pos = e;
            },
            None => {
                proof {
                    lemma_blocks_miss(text@, pos as int);
                }
                pos = pos + 1;
            },
        }
    }
    proof {
        assert(blocks_from(text@, pos as int) =~= Seq::<Seq<char>>::empty());
        assert(v.deep_view() + blocks_from(text@, pos as int) =~= v.deep_view());
    }
    v
}

} // verus!
