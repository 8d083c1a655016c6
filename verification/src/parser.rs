//! The entry parser: turns the interior lines of the selected enumeration
//! block into interrupt entries, skipping and reporting unparsable lines.
//!
//! Lines are traversed in reverse declaration order, as the locator hands
//! the block over closing line first; the emitter's caller restores the
//! declaration order by one final reversal.

use crate::entry::Irq;
use crate::entry::IrqModel;
use crate::locator::all_blocks;
use crate::locator::block_selected;
use crate::locator::first_selected;
use crate::locator::locate_enum_blocks;
use crate::numbers::parse_i16;
use crate::numbers::parse_i16_spec;
use crate::text::contains_marker;
use crate::text::find_char;
use crate::text::find_char_in;
use crate::text::find_space;
use crate::text::find_space_in;
use crate::text::is_alpha;
use crate::text::is_alpha_char;
use crate::text::is_space;
use crate::text::lemma_find_space;
use crate::text::lemma_skip_spaces;
use crate::text::skip_spaces;
use crate::text::skip_spaces_in;
use crate::text::split_lines;
use crate::text::split_lines_vec;
use crate::text::trim_spec;
use crate::text::trim_str;
use vstd::prelude::*;
use vstd::string::StrSliceExecFns;

verus! {

/// The first whitespace-separated token of `s`.
pub open spec fn first_token(s: Seq<char>) -> Seq<char> {
    let a = skip_spaces(s, 0);
    if a >= s.len() {
        Seq::empty()
    } else {
        s.subrange(a, find_space(s, a))
    }
}

/// `t` with one trailing comma removed, if present.
pub open spec fn strip_comma(t: Seq<char>) -> Seq<char> {
    if t.len() > 0 && t.last() == ',' {
        t.drop_last()
    } else {
        t
    }
}

/// The number read from the right-hand side of an entry line: the first
/// whitespace-separated token, with a trailing comma stripped, parsed as a
/// signed 16-bit decimal integer.
pub open spec fn irq_number_spec(s: Seq<char>) -> Option<i16> {
    parse_i16_spec(strip_comma(first_token(s)))
}

/// The entry read from one already-trimmed candidate line: the line must
/// split into exactly two parts on `=`; the name is the trimmed left part,
/// the number is read from the right part. A line with no `=`, more than
/// one `=`, or an unparsable number yields nothing.
pub open spec fn irq_from_line(s: Seq<char>) -> Option<IrqModel> {
    let i = find_char(s, 0, '=');
    if i < s.len() && find_char(s, i + 1, '=') == s.len() {
        match irq_number_spec(s.subrange(i + 1, s.len() as int)) {
            Some(num) => Some(
                IrqModel { name: trim_spec(s.subrange(0, i)), number: num as int },
            ),
            None => None,
        }
    } else {
        None
    }
}

/// A line is considered at all only when its trimmed form starts with an
/// ASCII letter; this filters blank lines, brace-only lines and
/// punctuation-only lines.
pub open spec fn is_candidate(l: Seq<char>) -> bool {
    let t = trim_spec(l);
    t.len() > 0 && is_alpha(t[0])
}

/// What one raw block line contributes to the entry list.
pub open spec fn line_to_entry(l: Seq<char>) -> Option<IrqModel> {
    if is_candidate(l) {
        irq_from_line(trim_spec(l))
    } else {
        None
    }
}

/// A candidate line that fails to parse is skipped and reported.
pub open spec fn line_skipped(l: Seq<char>) -> bool {
    is_candidate(l) && irq_from_line(trim_spec(l)) is None
}

/// The entries of a line sequence, in traversal order.
pub open spec fn entries_of_lines(ls: Seq<Seq<char>>) -> Seq<IrqModel>
    decreases ls.len(),
{
    if ls.len() == 0 {
        Seq::empty()
    } else {
        let rest = entries_of_lines(ls.drop_last());
        match line_to_entry(ls.last()) {
            Some(e) => rest.push(e),
            None => rest,
        }
    }
}

/// The skipped (reported) lines of a line sequence, in traversal order.
pub open spec fn skipped_of_lines(ls: Seq<Seq<char>>) -> Seq<Seq<char>>
    decreases ls.len(),
{
    if ls.len() == 0 {
        Seq::empty()
    } else {
        let rest = skipped_of_lines(ls.drop_last());
        if line_skipped(ls.last()) {
            rest.push(ls.last())
        } else {
            rest
        }
    }
}

/// The candidate entry lines of a block: its lines in reverse order with
/// the first and last of the reversed sequence (the closing and opening
/// statements) dropped.
pub open spec fn block_mids(b: Seq<char>) -> Seq<Seq<char>> {
    let rev = split_lines(b).reverse();
    if rev.len() <= 2 {
        Seq::empty()
    } else {
        rev.subrange(1, rev.len() - 1)
    }
}

/// The entries of one block, last-declared first.
pub open spec fn block_entries(b: Seq<char>) -> Seq<IrqModel> {
    entries_of_lines(block_mids(b))
}

/// The reported lines of one block.
pub open spec fn block_skipped(b: Seq<char>) -> Seq<Seq<char>> {
    skipped_of_lines(block_mids(b))
}

/// The entries of the whole text: those of the first selected block, or
/// none when no block is selected.
pub open spec fn parsed_entries(text: Seq<char>) -> Seq<IrqModel> {
    match first_selected(all_blocks(text)) {
        Some(b) => block_entries(b),
        None => Seq::empty(),
    }
}

/// The reported lines of the whole text.
pub open spec fn skipped_lines(text: Seq<char>) -> Seq<Seq<char>> {
    match first_selected(all_blocks(text)) {
        Some(b) => block_skipped(b),
        None => Seq::empty(),
    }
}

/// Reads the interrupt number from the right-hand side of an entry line.
pub fn get_irq_number(irq_num: &str) -> (r: Option<i16>)
    ensures
        r == irq_number_spec(irq_num@),
{
    let n = irq_num.unicode_len();
    let a = skip_spaces_in(irq_num, n, 0);
    if a == n {
        proof {
            assert(first_token(irq_num@) == Seq::<char>::empty());
            assert(strip_comma(Seq::<char>::empty()) == Seq::<char>::empty());
        }
        return None;
    }
    let b = find_space_in(irq_num, n, a);
    proof {
        lemma_skip_spaces(irq_num@, 0);
        lemma_find_space(irq_num@, a as int);
        assert(!is_space(irq_num@[a as int]));
        if b == a {
            assert(is_space(irq_num@[a as int]));
        }
    }
    let tok_end = if irq_num.get_char(b - 1) == ',' {
        b - 1
    } else {
        b
    };
    let tok = irq_num.substring_char(a, tok_end);
    proof {
        let ft = irq_num@.subrange(a as int, b as int);
        assert(first_token(irq_num@) == ft);
        assert(ft.last() == irq_num@[b - 1]);
        if irq_num@[b - 1] == ',' {
            assert(strip_comma(ft) =~= irq_num@.subrange(a as int, b - 1));
        }
        assert(tok@ == strip_comma(first_token(irq_num@)));
    }
    parse_i16(tok)
}

/// Reads one entry from an already-trimmed line.
pub fn get_irq_from_string(irq_def: &str) -> (r: Option<Irq>)
    ensures
        match r {
            Some(irq) => irq_from_line(irq_def@) == Some(irq@),
            None => irq_from_line(irq_def@) is None,
        },
{
    let n = irq_def.unicode_len();
    let i = find_char_in(irq_def, n, 0, '=');
    if i == n {
        return None;
    }
    let j = find_char_in(irq_def, n, i + 1, '=');
    if j < n {
        return None;
    }
    let rhs = irq_def.substring_char(i + 1, n);
    match get_irq_number(rhs) {
        None => None,
        Some(number) => {
            let name = trim_str(irq_def.substring_char(0, i));
            Some(Irq { name, number })
        },
    }
}

/// Parses the interior lines of one block into entries plus the reported
/// lines, last-declared entries first.
pub fn parse_entries(block: &str) -> (r: (Vec<Irq>, Vec<String>))
    ensures
        r.0.deep_view() == block_entries(block@),
        r.1.deep_view() == block_skipped(block@),
{
    let lines = split_lines_vec(block);
    let len = lines.len();
    let mut entries: Vec<Irq> = Vec::new();
    let mut skipped: Vec<String> = Vec::new();
    proof {
        assert(entries.deep_view() =~= Seq::<IrqModel>::empty());
        assert(skipped.deep_view() =~= Seq::<Seq<char>>::empty());
        assert(split_lines(block@).reverse().len() == len);
    }
    if len <= 2 {
        proof {
            assert(block_mids(block@) == Seq::<Seq<char>>::empty());
        }
        return (entries, skipped);
    }
    let ghost mids = block_mids(block@);
    proof {
        assert(mids.len() == len - 2);
        assert(mids.take(0) =~= Seq::<Seq<char>>::empty());
    }
    let mut k: usize = 0;
    while k < len - 2
        invariant
            lines.deep_view() == split_lines(block@),
            len == lines.len(),
            2 < len,
            mids == block_mids(block@),
            mids.len() == len - 2,
            k <= len - 2,
            entries.deep_view() == entries_of_lines(mids.take(k as int)),
            skipped.deep_view() == skipped_of_lines(mids.take(k as int)),
        decreases len - 2 - k,
    {
        let idx = len - 2 - k;
        let line = &lines[idx];
        let trimmed = trim_str(line.as_str());
        let tn = trimmed.as_str().unicode_len();
        proof {
            assert(mids[k as int] == split_lines(block@).reverse()[1 + k]);
            assert(split_lines(block@).reverse()[1 + k] == split_lines(block@)[idx as int]);
            assert(lines.deep_view()[idx as int] == line@);
            assert(mids[k as int] == line@);
            assert(mids.take(k + 1).drop_last() =~= mids.take(k as int));
            assert(mids.take(k + 1).last() == mids[k as int]);
        }
        let candidate = tn > 0 && is_alpha_char(trimmed.as_str().get_char(0));
        proof {
            assert(candidate == is_candidate(line@));
        }
        if candidate {
            match get_irq_from_string(trimmed.as_str()) {
                Some(irq) => {
                    let ghost old_dv = entries.deep_view();
                    entries.push(irq);
                    proof {
                        assert(entries.deep_view() =~= old_dv.push(irq@));
                        assert(line_to_entry(mids[k as int]) == Some(irq@));
                    }
                },
                None => {
                    let ghost old_dv = skipped.deep_view();
                    skipped.push(line.clone());
                    proof {
                        assert(skipped.deep_view() =~= old_dv.push(line@));
                        assert(line_skipped(mids[k as int]));
                        assert(line_to_entry(mids[k as int]) is None);
                    }
                },
            }
        } else {
            proof {
                assert(line_to_entry(mids[k as int]) is None);
                assert(!line_skipped(mids[k as int]));
            }
        }
        k += 1;
    }
    proof {
        assert(mids.take((len - 2) as int) =~= mids);
    }
    (entries, skipped)
}

/// Locates the interrupt enumeration block in the raw text and parses it:
/// the entries come back last-declared first, together with the reported
/// unparsable lines. A text without a selected block yields no entries.
pub fn irq_vector_from_enum(typedef: &str) -> (r: (Vec<Irq>, Vec<String>))
    ensures
        r.0.deep_view() == parsed_entries(typedef@),
        r.1.deep_view() == skipped_lines(typedef@),
{
    let blocks = locate_enum_blocks(typedef);
    let nb = blocks.len();
    let mut bi: usize = 0;
    proof {
        assert(all_blocks(typedef@).skip(0) =~= all_blocks(typedef@));
    }
    while bi < nb
        invariant
            blocks.deep_view() == all_blocks(typedef@),
            nb == blocks.len(),
            bi <= nb,
            first_selected(all_blocks(typedef@)) == first_selected(
                all_blocks(typedef@).skip(bi as int),
            ),
        decreases nb - bi,
    {
        let ghost bs = all_blocks(typedef@);
        let lines = split_lines_vec(blocks[bi].as_str());
        proof {
            assert(blocks.deep_view()[bi as int] == blocks@[bi as int]@);
            assert(bs.skip(bi as int)[0] == bs[bi as int]);
            assert(bs.skip(bi as int).len() > 0);
        }
        let selected = lines.len() > 0 && contains_marker(lines[lines.len() - 1].as_str());
        proof {
            assert(lines.deep_view().len() == lines.len());
            if lines.len() > 0 {
                assert(lines.deep_view()[lines.len() - 1] == lines@[lines.len() - 1]@);
                assert(split_lines(bs[bi as int]).last() == lines@[lines.len() - 1]@);
            }
            assert(selected == block_selected(bs[bi as int]));
        }
        if selected {
            proof {
                assert(first_selected(bs.skip(bi as int)) == Some(bs[bi as int]));
            }
            return parse_entries(blocks[bi].as_str());
        }
        proof {
            assert(bs.skip(bi as int).drop_first() =~= bs.skip(bi + 1));
        }
        bi += 1;
    }
    proof {
        assert(all_blocks(typedef@).skip(nb as int) =~= Seq::<Seq<char>>::empty());
    }
    let entries: Vec<Irq> = Vec::new();
    let skipped: Vec<String> = Vec::new();
    proof {
        assert(entries.deep_view() =~= Seq::<IrqModel>::empty());
        assert(skipped.deep_view() =~= Seq::<Seq<char>>::empty());
    }
    (entries, skipped)
}

} // verus!
