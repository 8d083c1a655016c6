//! Library-wide properties, stated and proved over the specification model
//! that the executable functions' contracts use.

use crate::emitter::emit_spec;
use crate::emitter::keep_nonneg;
use crate::emitter::preamble_spec;
use crate::emitter::prologue_spec;
use crate::entry::IrqModel;
use crate::entry::wf_entry;
use crate::locator::all_blocks;
use crate::locator::block_selected;
use crate::locator::first_selected;
use crate::parser::block_mids;
use crate::parser::entries_of_lines;
use crate::parser::is_candidate;
use crate::parser::line_to_entry;
use crate::parser::parsed_entries;
use crate::text::find_char;
use crate::text::is_alpha;
use crate::text::is_space;
use crate::text::lemma_find_char;
use crate::text::lemma_trim_end;
use crate::text::skip_spaces;
use crate::text::trim_end;
use crate::text::trim_spec;
use vstd::prelude::*;

verus! {

/// A raw block line that parses into a device entry: a syntactically valid
/// `name = number` line with a non-negative number.
pub open spec fn is_device_line(l: Seq<char>) -> bool {
    match line_to_entry(l) {
        Some(e) => e.number >= 0,
        None => false,
    }
}

/// How many lines of `ls` parse into device entries.
pub open spec fn count_device_lines(ls: Seq<Seq<char>>) -> int
    decreases ls.len(),
{
    if ls.len() == 0 {
        0
    } else {
        count_device_lines(ls.drop_last()) + if is_device_line(ls.last()) {
            1int
        } else {
            0int
        }
    }
}

/// The emitter keeps exactly one entry per device line: the number of kept
/// entries equals the number of syntactically valid `name = number` lines
/// whose number is non-negative.
pub proof fn lemma_device_entry_count(ls: Seq<Seq<char>>)
    ensures
        keep_nonneg(entries_of_lines(ls)).len() == count_device_lines(ls),
    decreases ls.len(),
{
    if ls.len() > 0 {
        lemma_device_entry_count(ls.drop_last());
        match line_to_entry(ls.last()) {
            Some(e) => {
                let rest = entries_of_lines(ls.drop_last());
                assert(rest.push(e).drop_last() =~= rest);
            },
            None => {},
        }
    }
}

/// Prepending one line contributes its entry (if any) at the front of the
/// parsed entry list.
proof fn lemma_entries_cons(l: Seq<char>, xs: Seq<Seq<char>>)
    ensures
        entries_of_lines(seq![l] + xs) == (match line_to_entry(l) {
            Some(e) => seq![e],
            None => Seq::<IrqModel>::empty(),
        }) + entries_of_lines(xs),
    decreases xs.len(),
{
    let ghost head = (match line_to_entry(l) {
        Some(e) => seq![e],
        None => Seq::<IrqModel>::empty(),
    });
    if xs.len() == 0 {
        assert(seq![l] + xs =~= seq![l]);
        assert(seq![l].drop_last() =~= Seq::<Seq<char>>::empty());
        assert(seq![l].last() == l);
        assert(entries_of_lines(Seq::<Seq<char>>::empty()) == Seq::<IrqModel>::empty());
        assert(entries_of_lines(xs) == Seq::<IrqModel>::empty());
        match line_to_entry(l) {
            Some(e) => {
                assert(entries_of_lines(seq![l]) == entries_of_lines(
                    seq![l].drop_last(),
                ).push(e));
                assert(Seq::<IrqModel>::empty().push(e) =~= seq![e]);
                assert(head + entries_of_lines(xs) =~= seq![e]);
            },
            None => {
                assert(entries_of_lines(seq![l]) == entries_of_lines(seq![l].drop_last()));
                assert(head + entries_of_lines(xs) =~= Seq::<IrqModel>::empty());
            },
        }
        assert(entries_of_lines(seq![l] + xs) == entries_of_lines(seq![l]));
    } else {
        lemma_entries_cons(l, xs.drop_last());
        assert((seq![l] + xs).drop_last() =~= seq![l] + xs.drop_last());
        assert((seq![l] + xs).last() == xs.last());
        match line_to_entry(xs.last()) {
            Some(e) => {
                assert((head + entries_of_lines(xs.drop_last())).push(e) =~= head + (
                entries_of_lines(xs.drop_last()).push(e)));
            },
            None => {},
        }
    }
}

/// Parsing the lines in reverse order yields the reversed entry list: the
/// line filter and the per-line parse are independent of position.
pub proof fn lemma_entries_reverse(ls: Seq<Seq<char>>)
    ensures
        entries_of_lines(ls.reverse()) == entries_of_lines(ls).reverse(),
    decreases ls.len(),
{
    if ls.len() == 0 {
        assert(ls.reverse() =~= ls);
        assert(entries_of_lines(ls).reverse() =~= entries_of_lines(ls));
    } else {
        let l = ls.last();
        let dl = ls.drop_last();
        lemma_entries_reverse(dl);
        lemma_entries_cons(l, dl.reverse());
        assert(ls.reverse() =~= seq![l] + dl.reverse());
        let ghost head = (match line_to_entry(l) {
            Some(e) => seq![e],
            None => Seq::<IrqModel>::empty(),
        });
        assert(entries_of_lines(ls.reverse()) == head + entries_of_lines(dl).reverse());
        match line_to_entry(l) {
            Some(e) => {
                assert(entries_of_lines(ls) == entries_of_lines(dl).push(e));
                assert(entries_of_lines(dl).push(e).reverse() =~= seq![e] + entries_of_lines(
                    dl,
                ).reverse());
            },
            None => {
                assert(entries_of_lines(ls) == entries_of_lines(dl));
                assert(head + entries_of_lines(dl).reverse() =~= entries_of_lines(dl).reverse());
            },
        }
    }
}

/// Round-trip ordering: the parser walks the block's lines in reverse
/// declaration order, and the emitter's caller reverses the parsed list
/// once more; the device entries therefore appear in the output in source
/// declaration order, whatever the interior transformation did.
pub proof fn lemma_round_trip_order(ls: Seq<Seq<char>>)
    ensures
        entries_of_lines(ls.reverse()).reverse() == entries_of_lines(ls),
{
    lemma_entries_reverse(ls);
    assert(entries_of_lines(ls).reverse().reverse() =~= entries_of_lines(ls));
}

/// The number of emitted device entries for a block whose candidate lines
/// in declaration order are `fwd`: parsing in reverse, re-reversing, and
/// filtering keeps exactly one entry per valid non-negative line.
pub proof fn lemma_emitted_device_count(fwd: Seq<Seq<char>>)
    ensures
        keep_nonneg(entries_of_lines(fwd.reverse()).reverse()).len() == count_device_lines(fwd),
{
    lemma_round_trip_order(fwd);
    lemma_device_entry_count(fwd);
}

/// The fixed preamble of core-system constants stands in every output,
/// right after the prologue, no matter what was parsed.
pub proof fn lemma_preamble_present(es: Seq<IrqModel>)
    ensures
        emit_spec(es).subrange(
            prologue_spec().len() as int,
            prologue_spec().len() + preamble_spec().len() as int,
        ) == preamble_spec(),
{
    assert(emit_spec(es).subrange(
        prologue_spec().len() as int,
        prologue_spec().len() + preamble_spec().len() as int,
    ) =~= preamble_spec());
}

/// When no block's closing line contains the interrupt-type marker, no
/// block is ever selected.
pub proof fn lemma_unselected_blocks_yield_nothing(bs: Seq<Seq<char>>)
    requires
        forall|i: int| 0 <= i < bs.len() ==> !block_selected(#[trigger] bs[i]),
    ensures
        first_selected(bs) is None,
    decreases bs.len(),
{
    if bs.len() > 0 {
        assert(!block_selected(bs[0]));
        assert forall|i: int| 0 <= i < bs.drop_first().len() implies !block_selected(
            #[trigger] bs.drop_first()[i],
        ) by {
            assert(bs.drop_first()[i] == bs[i + 1]);
        }
        lemma_unselected_blocks_yield_nothing(bs.drop_first());
    }
}

/// Emission is a pure function of the parsed entry list: two runs on the
/// same entries produce identical output text.
pub proof fn lemma_emission_deterministic(es1: Seq<IrqModel>, es2: Seq<IrqModel>)
    requires
        es1 == es2,
    ensures
        emit_spec(es1) == emit_spec(es2),
{
}

/// Every entry parsed from a candidate line is well formed: the candidate
/// filter guarantees the trimmed line starts with a letter, so the name
/// left of the `=` is non-empty, and the number was parsed as an `i16`.
proof fn lemma_line_entry_wf(l: Seq<char>)
    requires
        line_to_entry(l) is Some,
    ensures
        wf_entry(line_to_entry(l)->Some_0),
{
    let t = trim_spec(l);
    assert(is_candidate(l));
    let i = find_char(t, 0, '=');
    lemma_find_char(t, 0, '=');
    assert(i < t.len());
    if i == 0 {
        assert(t[0] == '=');
        assert(is_alpha(t[0]));
        assert(false);
    }
    let sub = t.subrange(0, i);
    assert(sub[0] == t[0]);
    assert(!is_space(sub[0]));
    assert(skip_spaces(sub, 0) == 0);
    lemma_trim_end(sub);
    if trim_end(sub) == 0 {
        assert(is_space(sub[0]));
        assert(false);
    }
    assert(trim_spec(sub).len() > 0);
}

/// Every entry the parser yields satisfies the data-model invariant.
pub proof fn lemma_entries_wf(ls: Seq<Seq<char>>)
    ensures
        forall|i: int|
            0 <= i < entries_of_lines(ls).len() ==> wf_entry(#[trigger] entries_of_lines(ls)[i]),
    decreases ls.len(),
{
    if ls.len() > 0 {
        lemma_entries_wf(ls.drop_last());
        let rest = entries_of_lines(ls.drop_last());
        match line_to_entry(ls.last()) {
            Some(e) => {
                lemma_line_entry_wf(ls.last());
                assert(entries_of_lines(ls) == rest.push(e));
                assert forall|i: int| 0 <= i < entries_of_lines(ls).len() implies wf_entry(
                    #[trigger] entries_of_lines(ls)[i],
                ) by {
                    if i < rest.len() {
                        assert(entries_of_lines(ls)[i] == rest[i]);
                    } else {
                        assert(entries_of_lines(ls)[i] == e);
                    }
                }
            },
            None => {
                assert(entries_of_lines(ls) == rest);
            },
        }
    }
}

/// The invariant carried to the whole pipeline: every parsed entry of any
/// input text is well formed.
pub proof fn lemma_parsed_entries_wf(text: Seq<char>)
    ensures
        forall|i: int|
            0 <= i < parsed_entries(text).len() ==> wf_entry(#[trigger] parsed_entries(text)[i]),
{
    match first_selected(all_blocks(text)) {
        Some(b) => {
            lemma_entries_wf(block_mids(b));
        },
        None => {},
    }
}

} // verus!
