//! The enum emitter: renders the fixed core-system preamble followed by
//! the filtered device entries as a C++ strongly typed enumeration, and the
//! end-to-end transformation from raw header text to output text.

use crate::entry::Irq;
use crate::entry::IrqModel;
use crate::numbers::dec_repr;
use crate::numbers::push_dec;
use crate::parser::irq_vector_from_enum;
use crate::parser::parsed_entries;
use crate::parser::skipped_lines;
use vstd::prelude::*;
use vstd::string::StringExecFns;

verus! {

/// The fixed opening of the output: include guard, include, and the header
/// of the typed enumeration.
pub open spec fn prologue_spec() -> Seq<char> {
    "#ifndef STM32F401_IRQN_H\r\n"@ + "#define STM32F401_IRQN_H\r\n\r\n"@
        + "#include <cstdint>\r\n\r\n"@ + "enum class Stm32IRQn : int16_t {\r\n"@
}

/// The fixed preamble of the nine core-system interrupt constants, emitted
/// verbatim in every output, whatever the input contained.
pub open spec fn preamble_spec() -> Seq<char> {
    "  NonMaskableInterrupt = -14,\r\n"@ + "  HardFault = -13,\r\n"@
        + "  MemoryManagement = -12,\r\n"@ + "  BusFault = -11,\r\n"@
        + "  UsageFault = -10,\r\n"@ + "  SupervisorCall = -5,\r\n"@
        + "  DebugMonitor = -4,\r\n"@ + "  PendSV = -2,\r\n"@
        + "  SysTick = -1,\r\n"@
}

/// The fixed closing of the output.
pub open spec fn epilogue_spec() -> Seq<char> {
    "};\r\n\r\n"@ + "#endif //STM32F401_IRQN_H"@
}

/// One rendered device entry line.
pub open spec fn entry_line_spec(e: IrqModel) -> Seq<char> {
    "  "@ + e.name + " = "@ + dec_repr(e.number) + ",\r\n"@
}

/// The entries kept for the device section: those with a non-negative
/// number, in their given order. Negative entries are assumed to duplicate
/// the fixed preamble and are silently excluded.
pub open spec fn keep_nonneg(es: Seq<IrqModel>) -> Seq<IrqModel>
    decreases es.len(),
{
    if es.len() == 0 {
        Seq::empty()
    } else {
        let rest = keep_nonneg(es.drop_last());
        if es.last().number >= 0 {
            rest.push(es.last())
        } else {
            rest
        }
    }
}

/// The rendered device section: exactly one line per kept entry.
pub open spec fn render_entries(es: Seq<IrqModel>) -> Seq<char>
    decreases es.len(),
{
    if es.len() == 0 {
        Seq::empty()
    } else {
        render_entries(es.drop_last()) + entry_line_spec(es.last())
    }
}

/// The complete output text for an entry list already in declaration
/// order: prologue, the fixed preamble, one line per non-negative entry in
/// the given order, and the closing lines, with CRLF endings throughout.
pub open spec fn emit_spec(es: Seq<IrqModel>) -> Seq<char> {
    prologue_spec() + preamble_spec() + render_entries(keep_nonneg(es)) + epilogue_spec()
}

/// Renders the output text for the given entries (declaration order).
pub fn emit_irqn_enum(entries: &Vec<Irq>) -> (out: String)
    ensures
        out@ == emit_spec(entries.deep_view()),
{
    let ghost es = entries.deep_view();
    let mut out = String::new();
    out.append("#ifndef STM32F401_IRQN_H\r\n");
    out.append("#define STM32F401_IRQN_H\r\n\r\n");
    out.append("#include <cstdint>\r\n\r\n");
    out.append("enum class Stm32IRQn : int16_t {\r\n");
    proof {
        assert(out@ =~= prologue_spec());
    }
    out.append("  NonMaskableInterrupt = -14,\r\n");
    out.append("  HardFault = -13,\r\n");
    out.append("  MemoryManagement = -12,\r\n");
    out.append("  BusFault = -11,\r\n");
    out.append("  UsageFault = -10,\r\n");
    out.append("  SupervisorCall = -5,\r\n");
    out.append("  DebugMonitor = -4,\r\n");
    out.append("  PendSV = -2,\r\n");
    out.append("  SysTick = -1,\r\n");
    proof {
        assert(out@ =~= prologue_spec() + preamble_spec());
        assert(es.take(0) =~= Seq::<IrqModel>::empty());
        assert(render_entries(keep_nonneg(es.take(0))) =~= Seq::<char>::empty());
        assert(out@ + render_entries(keep_nonneg(es.take(0))) =~= out@);
    }
    let n = entries.len();
    let mut i: usize = 0;
    while i < n
        invariant
            es == entries.deep_view(),
            n == entries.len(),
            es.len() == n,
            i <= n,
            out@ == prologue_spec() + preamble_spec() + render_entries(
                keep_nonneg(es.take(i as int)),
            ),
        decreases n - i,
    {
        proof {
            assert(es.take(i + 1).drop_last() =~= es.take(i as int));
            assert(es.take(i + 1).last() == es[i as int]);
            assert(es[i as int] == entries@[i as int]@);
        }
        let e = &entries[i];
        if e.number >= 0 {
            let ghost before = out@;
            out.append("  ");
            out.append(e.name.as_str());
            out.append(" = ");
            push_dec(&mut out, e.number as u16);
            out.append(",\r\n");
            proof {
                let kn = keep_nonneg(es.take(i as int));
                assert(keep_nonneg(es.take(i + 1)) == kn.push(es[i as int]));
                assert(kn.push(es[i as int]).drop_last() =~= kn);
                assert(render_entries(kn.push(es[i as int])) == render_entries(kn)
                    + entry_line_spec(es[i as int]));
                assert(dec_repr(e.number as u16 as int) == dec_repr(es[i as int].number));
                assert(out@ =~= before + entry_line_spec(es[i as int]));
                assert((prologue_spec() + preamble_spec() + render_entries(kn))
                    + entry_line_spec(es[i as int]) =~= prologue_spec() + preamble_spec() + (
                render_entries(kn) + entry_line_spec(es[i as int])));
            }
        } else {
            proof {
                assert(keep_nonneg(es.take(i + 1)) == keep_nonneg(es.take(i as int)));
            }
        }
        i += 1;
    }
    proof {
        assert(es.take(n as int) =~= es);
    }
    out.append("};\r\n\r\n");
    out.append("#endif //STM32F401_IRQN_H");
    proof {
        assert(out@ =~= emit_spec(es));
    }
    out
}

/// Reverses an entry list; the parser yields entries last-declared first,
/// and emission expects declaration order.
pub fn reverse_entries(v: Vec<Irq>) -> (r: Vec<Irq>)
    ensures
        r.deep_view() == v.deep_view().reverse(),
{
    let ghost dv = v.deep_view();
    let mut src = v;
    let mut r: Vec<Irq> = Vec::new();
    proof {
        assert(r.deep_view() =~= Seq::<IrqModel>::empty());
        assert(src.deep_view() =~= dv.skip(0).reverse().reverse());
        assert(dv.skip(dv.len() as int).reverse() =~= Seq::<IrqModel>::empty());
    }
    while src.len() > 0
        invariant
            src.deep_view() == dv.take(src.len() as int),
            src.len() <= dv.len(),
            r.deep_view() == dv.skip(src.len() as int).reverse(),
        decreases src.len(),
    {
        let ghost m = src.len() as int;
        let ghost old_r = r.deep_view();
        let x = src.pop().unwrap();
        proof {
            assert(src.deep_view() =~= dv.take(m).drop_last());
            assert(dv.take(m).drop_last() =~= dv.take(m - 1));
            assert(x@ == dv.take(m).last());
            assert(dv.take(m).last() == dv[m - 1]);
        }
        r.push(x);
        proof {
            assert(r.deep_view() =~= old_r.push(x@));
            assert(dv.skip(m - 1) =~= seq![dv[m - 1]] + dv.skip(m));
            assert((seq![dv[m - 1]] + dv.skip(m)).reverse() =~= dv.skip(m).reverse().push(
                dv[m - 1],
            ));
        }
    }
    proof {
        assert(dv.take(0) =~= Seq::<IrqModel>::empty());
        assert(dv.skip(0) =~= dv);
    }
    r
}

/// The whole pipeline: locate the interrupt enumeration block, parse its
/// entries, restore declaration order, and render the output text. Also
/// yields the reported unparsable lines.
pub fn irqn_enum_from_text(text: &str) -> (r: (String, Vec<String>))
    ensures
        r.0@ == emit_spec(parsed_entries(text@).reverse()),
        r.1.deep_view() == skipped_lines(text@),
{
    let parsed = irq_vector_from_enum(text);
    let entries = parsed.0;
    let skipped = parsed.1;
    let ordered = reverse_entries(entries);
    let out = emit_irqn_enum(&ordered);
    (out, skipped)
}

} // verus!
