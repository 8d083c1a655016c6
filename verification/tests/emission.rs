use irqn_parser::emitter::emit_irqn_enum;
use irqn_parser::emitter::irqn_enum_from_text;
use irqn_parser::emitter::reverse_entries;
use irqn_parser::entry::Irq;
use irqn_parser::locator::locate_enum_blocks;

fn entry(name: &str, number: i16) -> Irq {
    Irq { name: name.to_string(), number }
}

const PREAMBLE: &str = "#ifndef STM32F401_IRQN_H\r\n#define STM32F401_IRQN_H\r\n\r\n#include <cstdint>\r\n\r\nenum class Stm32IRQn : int16_t {\r\n  NonMaskableInterrupt = -14,\r\n  HardFault = -13,\r\n  MemoryManagement = -12,\r\n  BusFault = -11,\r\n  UsageFault = -10,\r\n  SupervisorCall = -5,\r\n  DebugMonitor = -4,\r\n  PendSV = -2,\r\n  SysTick = -1,\r\n";

const CLOSING: &str = "};\r\n\r\n#endif //STM32F401_IRQN_H";

#[test]
fn emit_exact_output() {
    let entries = vec![entry("WWDG_IRQn", 0), entry("PVD_IRQn", 1)];
    let out = emit_irqn_enum(&entries);
    let expected = format!("{}  WWDG_IRQn = 0,\r\n  PVD_IRQn = 1,\r\n{}", PREAMBLE, CLOSING);
    assert_eq!(out, expected);
}

#[test]
fn emit_excludes_negative_entries() {
    let entries = vec![entry("GOOD_IRQn", 3), entry("DUP_IRQn", -7)];
    let out = emit_irqn_enum(&entries);
    let expected = format!("{}  GOOD_IRQn = 3,\r\n{}", PREAMBLE, CLOSING);
    assert_eq!(out, expected);
}

#[test]
fn emit_empty_list_still_has_preamble() {
    let out = emit_irqn_enum(&Vec::new());
    let expected = format!("{}{}", PREAMBLE, CLOSING);
    assert_eq!(out, expected);
}

#[test]
fn emit_is_deterministic() {
    let entries = vec![entry("A_IRQn", 1), entry("B_IRQn", 2), entry("C_IRQn", -3)];
    let first = emit_irqn_enum(&entries);
    let second = emit_irqn_enum(&entries);
    assert_eq!(first.as_bytes(), second.as_bytes());
}

#[test]
fn emit_large_number_rendering() {
    let entries = vec![entry("BIG_IRQn", 32767), entry("TEN_IRQn", 10)];
    let out = emit_irqn_enum(&entries);
    let expected = format!("{}  BIG_IRQn = 32767,\r\n  TEN_IRQn = 10,\r\n{}", PREAMBLE, CLOSING);
    assert_eq!(out, expected);
}

#[test]
fn reverse_restores_declaration_order() {
    let parsed = vec![entry("LAST_IRQn", 2), entry("FIRST_IRQn", 1)];
    let ordered = reverse_entries(parsed);
    assert_eq!(ordered[0].name, "FIRST_IRQn");
    assert_eq!(ordered[1].name, "LAST_IRQn");
}

#[test]
fn pipeline_exact_output_and_order() {
    let text = "typedef enum\n{\n  WWDG_IRQn = 0,\n  PVD_IRQn = 1,\n  BAD_IRQn = notanumber,\n  NEG_IRQn = -7\n} STM32F401_IRQn_Type;\n";
    let (out, skipped) = irqn_enum_from_text(text);
    let expected = format!("{}  WWDG_IRQn = 0,\r\n  PVD_IRQn = 1,\r\n{}", PREAMBLE, CLOSING);
    assert_eq!(out, expected);
    assert_eq!(skipped, vec!["  BAD_IRQn = notanumber,".to_string()]);
}

#[test]
fn pipeline_without_block_yields_preamble_only() {
    let (out, skipped) = irqn_enum_from_text("no enumeration here");
    let expected = format!("{}{}", PREAMBLE, CLOSING);
    assert_eq!(out, expected);
    assert!(skipped.is_empty());
}

#[test]
fn locator_finds_blocks_in_order() {
    let text = "typedef enum { A } First; typedef enum { B } Second;";
    let blocks = locate_enum_blocks(text);
    assert_eq!(blocks.len(), 2);
    assert_eq!(blocks[0], "typedef enum { A } First;");
    assert_eq!(blocks[1], "typedef enum { B } Second;");
}

#[test]
fn locator_stops_at_first_closing_brace() {
    let text = "typedef enum { A } Tail; }";
    let blocks = locate_enum_blocks(text);
    assert_eq!(blocks.len(), 1);
    assert_eq!(blocks[0], "typedef enum { A } Tail;");
}

#[test]
fn locator_requires_identifier_before_semicolon() {
    let blocks = locate_enum_blocks("typedef enum { A };");
    assert!(blocks.is_empty());
}

#[test]
fn locator_requires_whitespace_between_keywords() {
    let blocks = locate_enum_blocks("typedefenum { A } X;");
    assert!(blocks.is_empty());
}

#[test]
fn locator_requires_opening_brace() {
    let blocks = locate_enum_blocks("typedef enum NoBrace } X;");
    assert!(blocks.is_empty());
}
