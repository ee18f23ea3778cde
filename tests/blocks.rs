use processor::blocks::{Block, BlockContent};
use processor::processor::{EngineError, ErrorKind, Processor, Symbol};
use processor::section::{Section, SectionKind};
use processor::tokens::{Color, Token, TokenStream};

fn section(name: &str, start: usize, end: usize) -> Section {
    Section {
        name: name.to_string(),
        kind: SectionKind::Code,
        start,
        end,
        addr: start,
        bytes: (0..end - start).map(|i| (i % 256) as u8).collect(),
    }
}

fn symbol(name: &str) -> Symbol {
    Symbol { name: vec![Token::from_string(name.to_string(), Color::Purple)] }
}

fn kinds(blocks: &[Block]) -> Vec<&'static str> {
    blocks
        .iter()
        .map(|b| match &b.content {
            BlockContent::SectionStart { .. } => "start",
            BlockContent::SectionEnd { .. } => "end",
            BlockContent::Label { .. } => "label",
            BlockContent::Instruction { .. } => "inst",
            BlockContent::Error { .. } => "error",
            BlockContent::Bytes { .. } => "bytes",
        })
        .collect()
}

fn inst_tokens() -> Vec<Token> {
    vec![Token::from_str("nop", Color::White)]
}

fn rendered(b: &Block) -> Vec<(String, Color)> {
    let mut stream = TokenStream::new();
    b.tokenize(&mut stream);
    stream.inner.iter().map(|t| (t.text.as_str().to_string(), t.color)).collect()
}

#[test]
fn single_instruction_then_bytes() {
    let mut p = Processor::new(vec![section(".text", 0x1000, 0x1010)], 4).unwrap();
    p.add_instruction(0x1000, 4, inst_tokens()).unwrap();
    assert_eq!(p.compute_block_boundaries(), vec![0x1000, 0x1004, 0x1010]);
    let at_start = p.parse_blocks(0x1000).unwrap();
    assert_eq!(kinds(&at_start), vec!["start", "inst"]);
    let run = p.parse_blocks(0x1004).unwrap();
    assert_eq!(kinds(&run), vec!["bytes"]);
    match &run[0].content {
        BlockContent::Bytes { bytes } => assert_eq!(bytes.len(), 12),
        _ => panic!("expected a byte run"),
    }
    assert_eq!(run[0].addr, 0x1004);
    assert_eq!(kinds(&p.parse_blocks(0x1010).unwrap()), vec!["end"]);
}

#[test]
fn label_splits_byte_run() {
    let mut p = Processor::new(vec![section(".text", 0x1000, 0x1010)], 4).unwrap();
    p.add_instruction(0x1000, 4, inst_tokens()).unwrap();
    p.add_function(0x1008, symbol("f"));
    assert_eq!(p.compute_block_boundaries(), vec![0x1000, 0x1004, 0x1008, 0x1010]);
    let at = p.parse_blocks(0x1008).unwrap();
    assert_eq!(kinds(&at), vec!["label", "bytes"]);
    match &at[1].content {
        BlockContent::Bytes { bytes } => assert_eq!(bytes.len(), 8),
        _ => panic!("expected a byte run"),
    }
    match &p.parse_blocks(0x1004).unwrap()[0].content {
        BlockContent::Bytes { bytes } => assert_eq!(bytes.len(), 4),
        _ => panic!("expected a byte run"),
    }
}

#[test]
fn adjacent_sections_share_boundary() {
    let p = Processor::new(vec![section("a", 0, 0x100), section("b", 0x100, 0x200)], 4).unwrap();
    let bounds = p.compute_block_boundaries();
    assert_eq!(bounds.iter().filter(|&&a| a == 0x100).count(), 1);
    assert_eq!(bounds, vec![0, 0x100, 0x200]);
    let at = p.parse_blocks(0x100).unwrap();
    assert_eq!(kinds(&at), vec!["end", "start", "bytes"]);
    match (&at[0].content, &at[1].content) {
        (BlockContent::SectionEnd { section: e }, BlockContent::SectionStart { section: s }) => {
            assert_eq!(e.name, "a");
            assert_eq!(s.name, "b");
        }
        _ => panic!("expected end then start"),
    }
}

#[test]
fn instruction_error_then_bytes() {
    let mut p = Processor::new(vec![section(".text", 0x1000, 0x1010)], 4).unwrap();
    p.add_instruction(0x1000, 2, inst_tokens()).unwrap();
    p.add_error(0x1002, ErrorKind::InvalidOpcode, 3).unwrap();
    assert_eq!(p.compute_block_boundaries(), vec![0x1000, 0x1002, 0x1005, 0x1010]);
    assert_eq!(kinds(&p.parse_blocks(0x1002).unwrap()), vec!["error"]);
    let run = p.parse_blocks(0x1005).unwrap();
    match &run[0].content {
        BlockContent::Bytes { bytes } => assert_eq!(bytes.len(), 11),
        _ => panic!("expected a byte run"),
    }
}

#[test]
fn long_byte_run_height_is_capped() {
    let p = Processor::new(vec![section(".data", 0, 4096)], 4).unwrap();
    let blocks = p.parse_blocks(0).unwrap();
    assert_eq!(kinds(&blocks), vec!["start", "bytes"]);
    match &blocks[1].content {
        BlockContent::Bytes { bytes } => assert_eq!(bytes.len(), 4096),
        _ => panic!("expected a byte run"),
    }
    assert_eq!(blocks[1].len(), 100);
}

#[test]
fn label_precedes_instruction() {
    let mut p = Processor::new(vec![section(".text", 0x1000, 0x3000)], 4).unwrap();
    p.add_instruction(0x2000, 4, inst_tokens()).unwrap();
    p.add_function(0x2000, symbol("main"));
    assert_eq!(kinds(&p.parse_blocks(0x2000).unwrap()), vec!["label", "inst"]);
}

#[test]
fn label_at_section_start_orders_after_marker() {
    let mut p = Processor::new(vec![section(".text", 0x1000, 0x1010)], 4).unwrap();
    p.add_function(0x1000, symbol("entry"));
    assert_eq!(kinds(&p.parse_blocks(0x1000).unwrap()), vec!["start", "label", "bytes"]);
}

#[test]
fn skipped_leading_region() {
    let mut s = section(".text", 0x1000, 0x1010);
    s.addr = 0x1008;
    let p = Processor::new(vec![s], 4).unwrap();
    assert_eq!(p.compute_section_boundaries(0), vec![0x1000, 0x1008, 0x1010]);
}

#[test]
fn empty_section_boundaries() {
    let p = Processor::new(vec![section("e", 0x40, 0x40)], 4).unwrap();
    assert_eq!(p.compute_block_boundaries(), vec![0x40]);
    assert_eq!(kinds(&p.parse_blocks(0x40).unwrap()), vec!["end", "start"]);
}

#[test]
fn boundaries_are_repeatable() {
    let mut p = Processor::new(vec![section("b", 0x200, 0x240), section("a", 0x100, 0x120)], 4).unwrap();
    p.add_instruction(0x104, 3, inst_tokens()).unwrap();
    p.add_function(0x210, symbol("g"));
    let first = p.compute_block_boundaries();
    assert_eq!(first, vec![0x100, 0x104, 0x107, 0x120, 0x200, 0x210, 0x240]);
    assert_eq!(first, p.compute_block_boundaries());
    assert_eq!(kinds(&p.parse_blocks(0x104).unwrap()), kinds(&p.parse_blocks(0x104).unwrap()));
}

#[test]
fn heights_of_each_kind() {
    let mut p = Processor::new(vec![section(".text", 0, 0x41)], 4).unwrap();
    p.add_instruction(0, 1, inst_tokens()).unwrap();
    p.add_error(1, ErrorKind::TooLong, 1).unwrap();
    p.add_function(2, symbol("h"));
    let first = p.parse_blocks(0).unwrap();
    assert_eq!(first.iter().map(|b| b.len()).collect::<Vec<_>>(), vec![2, 1]);
    assert_eq!(p.parse_blocks(1).unwrap()[0].len(), 1);
    let labelled = p.parse_blocks(2).unwrap();
    // 63 bytes: two lines of at most 32
    assert_eq!(labelled.iter().map(|b| b.len()).collect::<Vec<_>>(), vec![2, 2]);
    let single = Block { addr: 0, content: BlockContent::Bytes { bytes: vec![0; 32] } };
    assert_eq!(single.len(), 1);
    let two = Block { addr: 0, content: BlockContent::Bytes { bytes: vec![0; 33] } };
    assert_eq!(two.len(), 2);
}

#[test]
fn address_outside_sections_is_refused() {
    let p = Processor::new(vec![section(".text", 0x1000, 0x1010)], 4).unwrap();
    assert_eq!(p.parse_blocks(0x2000).err(), Some(EngineError::AddressOutOfRange));
    assert_eq!(p.parse_blocks(0xfff).err(), Some(EngineError::AddressOutOfRange));
}

#[test]
fn invalid_sections_are_refused() {
    let overlapping = Processor::new(vec![section("a", 0, 0x20), section("b", 0x10, 0x30)], 4);
    assert_eq!(overlapping.err(), Some(EngineError::InvalidSection));
    let mut short = section("s", 0, 0x10);
    short.bytes.pop();
    assert_eq!(Processor::new(vec![short], 4).err(), Some(EngineError::InvalidSection));
    let mut bad_addr = section("s", 0x10, 0x20);
    bad_addr.addr = 0x30;
    assert_eq!(Processor::new(vec![bad_addr], 4).err(), Some(EngineError::InvalidSection));
}

#[test]
fn decoder_violations_are_refused() {
    let mut p = Processor::new(vec![section(".text", 0x1000, 0x1010)], 4).unwrap();
    assert_eq!(p.add_instruction(0x1000, 0, inst_tokens()), Err(EngineError::DecoderInvariantViolation));
    p.add_instruction(0x1000, 2, inst_tokens()).unwrap();
    assert_eq!(p.add_error(0x1000, ErrorKind::InvalidOpcode, 1), Err(EngineError::DecoderInvariantViolation));
    assert_eq!(p.add_instruction(0x100e, 4, inst_tokens()), Err(EngineError::AddressOutOfRange));
    assert_eq!(p.add_error(0x3000, ErrorKind::InvalidOpcode, 1), Err(EngineError::AddressOutOfRange));
}

#[test]
fn renders_instruction() {
    let mut p = Processor::new(vec![section(".text", 0x1000, 0x1010)], 2).unwrap();
    p.add_instruction(0x1001, 2, inst_tokens()).unwrap();
    let blocks = p.parse_blocks(0x1001).unwrap();
    assert_eq!(
        rendered(&blocks[0]),
        vec![
            ("0000001001  ".to_string(), Color::Gray40),
            ("01 02  ".to_string(), Color::Green),
            ("nop".to_string(), Color::White),
        ]
    );
}

#[test]
fn renders_error_with_truncated_bytes() {
    let mut p = Processor::new(vec![section(".text", 0x1000, 0x1010)], 2).unwrap();
    p.add_error(0x1000, ErrorKind::ExhaustedInput, 4).unwrap();
    let blocks = p.parse_blocks(0x1000).unwrap();
    assert_eq!(
        rendered(&blocks[1]),
        vec![
            ("0000001000  ".to_string(), Color::Gray40),
            ("00 ... ".to_string(), Color::Green),
            ("<".to_string(), Color::Gray40),
            ("ExhaustedInput".to_string(), Color::Red),
            (">".to_string(), Color::Gray40),
        ]
    );
}

#[test]
fn renders_section_markers_and_label() {
    let mut p = Processor::new(vec![section(".text", 0x1a00, 0x1b00)], 2).unwrap();
    p.add_function(0x1a00, symbol("start"));
    let blocks = p.parse_blocks(0x1a00).unwrap();
    assert_eq!(
        rendered(&blocks[0]),
        vec![
            ("section started".to_string(), Color::White),
            (" .text ".to_string(), Color::Blue),
            ("{".to_string(), Color::Gray60),
            ("Code".to_string(), Color::Magenta),
            ("} ".to_string(), Color::Gray60),
            ("1a00".to_string(), Color::Green),
            ("-".to_string(), Color::Gray60),
            ("1b00".to_string(), Color::Green),
        ]
    );
    assert_eq!(
        rendered(&blocks[1]),
        vec![
            ("\n<".to_string(), Color::Blue),
            ("start".to_string(), Color::Purple),
            (">".to_string(), Color::Blue),
        ]
    );
    let end = p.parse_blocks(0x1b00).unwrap();
    assert_eq!(rendered(&end[0])[0], ("section ended".to_string(), Color::White));
}

#[test]
fn renders_byte_lines() {
    let block = Block { addr: 0xABC, content: BlockContent::Bytes { bytes: (0..34).collect() } };
    let out = rendered(&block);
    assert_eq!(out.len(), 5);
    assert_eq!(out[0], ("0000000ABC  ".to_string(), Color::Gray40));
    assert_eq!(out[1].0.len(), 96);
    assert!(out[1].0.starts_with("00 01 02 "));
    assert_eq!(out[2], ("\n".to_string(), Color::White));
    assert_eq!(out[3], ("0000000ADC  ".to_string(), Color::Gray40));
    assert_eq!(out[4], ("20 21 ".to_string(), Color::Green));
}

#[test]
fn renders_at_most_a_hundred_byte_lines() {
    let block = Block { addr: 0, content: BlockContent::Bytes { bytes: vec![0xff; 4096] } };
    let out = rendered(&block);
    assert_eq!(out.len(), 100 * 3 - 1);
    assert_eq!(out[out.len() - 2].0, "0000000C60  ");
}
