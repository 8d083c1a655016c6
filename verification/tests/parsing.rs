use irqn_parser::parser::get_irq_from_string;
use irqn_parser::parser::get_irq_number;
use irqn_parser::parser::irq_vector_from_enum;
use irqn_parser::parser::parse_entries;

#[test]
fn number_with_trailing_comma() {
    assert_eq!(get_irq_number("3,"), Some(3));
}

#[test]
fn number_negative_without_comma() {
    assert_eq!(get_irq_number("-7"), Some(-7));
}

#[test]
fn number_not_numeric() {
    assert_eq!(get_irq_number("notanumber,"), None);
}

#[test]
fn number_range_limits() {
    assert_eq!(get_irq_number("32767"), Some(32767));
    assert_eq!(get_irq_number("32768"), None);
    assert_eq!(get_irq_number("-32768,"), Some(-32768));
    assert_eq!(get_irq_number("-32769"), None);
}

#[test]
fn number_with_plus_sign() {
    assert_eq!(get_irq_number("+5"), Some(5));
}

#[test]
fn number_empty_and_punctuation() {
    assert_eq!(get_irq_number(""), None);
    assert_eq!(get_irq_number(","), None);
    assert_eq!(get_irq_number("-"), None);
    assert_eq!(get_irq_number("+"), None);
}

#[test]
fn number_takes_first_token() {
    assert_eq!(get_irq_number("12 /* comment */"), Some(12));
    assert_eq!(get_irq_number("  41 ,"), Some(41));
}

#[test]
fn number_hex_rejected() {
    assert_eq!(get_irq_number("0x1F"), None);
}

#[test]
fn number_leading_zeros() {
    assert_eq!(get_irq_number("007,"), Some(7));
}

#[test]
fn entry_line_with_extra_whitespace() {
    let irq = get_irq_from_string("SPI1_IRQn   =   35\t,").unwrap();
    assert_eq!(irq.name, "SPI1_IRQn");
    assert_eq!(irq.number, 35);
}

#[test]
fn unicode_whitespace_trimmed_like_str_trim() {
    let irq = get_irq_from_string("NBSP_IRQn\u{a0}=\u{a0}4,").unwrap();
    assert_eq!(irq.name, "NBSP_IRQn");
    assert_eq!(irq.number, 4);
}

#[test]
fn entry_line_with_comma() {
    let irq = get_irq_from_string("FOO_IRQn = 3,").unwrap();
    assert_eq!(irq.name, "FOO_IRQn");
    assert_eq!(irq.number, 3);
}

#[test]
fn entry_line_negative_no_comma() {
    let irq = get_irq_from_string("BAR_IRQn = -7").unwrap();
    assert_eq!(irq.name, "BAR_IRQn");
    assert_eq!(irq.number, -7);
}

#[test]
fn entry_line_not_numeric() {
    assert!(get_irq_from_string("BAD_IRQn = notanumber,").is_none());
}

#[test]
fn entry_line_wrong_split_count() {
    assert!(get_irq_from_string("NOEQ_IRQn 3,").is_none());
    assert!(get_irq_from_string("A = B = 3").is_none());
}

#[test]
fn parse_block_skips_and_continues() {
    let block = "typedef enum\n{\n  WWDG_IRQn = 0,\n  BAD_IRQn = notanumber,\n  PVD_IRQn = 1,\n} STM32F401_IRQn_Type;";
    let (entries, skipped) = parse_entries(block);
    // reverse traversal: last declared comes first
    assert_eq!(entries.len(), 2);
    assert_eq!(entries[0].name, "PVD_IRQn");
    assert_eq!(entries[0].number, 1);
    assert_eq!(entries[1].name, "WWDG_IRQn");
    assert_eq!(entries[1].number, 0);
    assert_eq!(skipped.len(), 1);
    assert_eq!(skipped[0], "  BAD_IRQn = notanumber,");
}

#[test]
fn vector_from_full_text() {
    let text = "// vendor header\ntypedef enum\n{\n  WWDG_IRQn = 0,\n  PVD_IRQn = 1,\n  NEG_IRQn = -7\n} STM32F401_IRQn_Type;\nint other_code;\n";
    let (entries, skipped) = irq_vector_from_enum(text);
    assert_eq!(entries.len(), 3);
    assert_eq!(entries[0].name, "NEG_IRQn");
    assert_eq!(entries[0].number, -7);
    assert_eq!(entries[1].name, "PVD_IRQn");
    assert_eq!(entries[2].name, "WWDG_IRQn");
    assert!(skipped.is_empty());
}

#[test]
fn unmarked_block_never_selected() {
    let text = "typedef enum\n{\n  SOME_VALUE = 1,\n} SomeOtherType;\n";
    let (entries, skipped) = irq_vector_from_enum(text);
    assert!(entries.is_empty());
    assert!(skipped.is_empty());
}

#[test]
fn first_marked_block_wins() {
    let text = "typedef enum\n{\n  OTHER = 1,\n} PlainType;\ntypedef enum\n{\n  TIM1_IRQn = 24,\n} STM32F401_IRQn_Type;\n";
    let (entries, _) = irq_vector_from_enum(text);
    assert_eq!(entries.len(), 1);
    assert_eq!(entries[0].name, "TIM1_IRQn");
    assert_eq!(entries[0].number, 24);
}

#[test]
fn single_line_block_has_no_interior() {
    let text = "typedef enum { X_IRQn = 1, } STM32F401_IRQn_Type;";
    let (entries, _) = irq_vector_from_enum(text);
    assert!(entries.is_empty());
}

#[test]
fn blank_and_punctuation_lines_filtered() {
    let text = "typedef enum\n{\n\n   \n  {\n  TIM2_IRQn = 28,\n} STM32F401_IRQn_Type;\n";
    let (entries, skipped) = irq_vector_from_enum(text);
    assert_eq!(entries.len(), 1);
    assert_eq!(entries[0].name, "TIM2_IRQn");
    assert!(skipped.is_empty());
}

#[test]
fn crlf_input_accepted() {
    let text = "typedef enum\r\n{\r\n  USART1_IRQn = 37,\r\n} STM32F401_IRQn_Type;\r\n";
    let (entries, _) = irq_vector_from_enum(text);
    assert_eq!(entries.len(), 1);
    assert_eq!(entries[0].name, "USART1_IRQn");
    assert_eq!(entries[0].number, 37);
}
