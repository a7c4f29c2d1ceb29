use mini_chip::assembler::{
    assemble_tokens, emit, get_label, get_value, label_to_u8, mnemonic, parse, register,
    resolve_statement, run, AssembleError, Label, Listing, Mnemonic, Statement, SymbolTable,
};
use mini_chip::isa::Instruction;
use mini_chip::machine::Machine;

fn token(text: &str) -> Vec<char> {
    text.chars().collect()
}

fn tokens_in(text: &str) -> Vec<Vec<char>> {
    text.split_whitespace().map(token).collect()
}

fn short_tokens(alphabet: &[char], max_len: usize) -> Vec<String> {
    let mut all = vec![String::new()];
    let mut last = vec![String::new()];
    for _ in 0..max_len {
        let mut next = Vec::new();
        for prefix in &last {
            for c in alphabet {
                let mut longer = prefix.clone();
                longer.push(*c);
                next.push(longer);
            }
        }
        all.extend(next.iter().cloned());
        last = next;
    }
    all
}

fn is_register_name(text: &str) -> Option<u8> {
    let chars: Vec<char> = text.chars().collect();
    if chars.len() == 2 && chars[0] == 'V' {
        chars[1].to_digit(16).map(|d| d as u8)
    } else {
        None
    }
}

#[test]
fn every_mnemonic_encodes_by_the_table() {
    let cases: [(&str, [u8; 2]); 16] = [
        ("jump 0x2A", [0x00, 0x2A]),
        ("ifeq V1 V2", [0x10, 0x12]),
        ("ifneq V3 V4", [0x20, 0x34]),
        ("ifle V5 V6", [0x30, 0x56]),
        ("setrr V7 V8", [0x40, 0x78]),
        ("setrpc V9", [0x41, 0x09]),
        ("setrm VA 0xBC", [0x5A, 0xBC]),
        ("setrc VD 0xEF", [0x6D, 0xEF]),
        ("setpcr VE", [0x70, 0x0E]),
        ("setmr 0xFF VF", [0x8F, 0xFF]),
        ("add V0 V1", [0x90, 0x01]),
        ("sub V2 V3", [0x91, 0x23]),
        ("and V4 V5", [0xA0, 0x45]),
        ("or V6 V7", [0xA1, 0x67]),
        ("xor V8 V9", [0xA2, 0x89]),
        ("not VB", [0xA3, 0xB0]),
    ];
    for (source, bytes) in cases {
        assert_eq!(run(source), Ok(bytes.to_vec()), "{}", source);
    }
}

#[test]
fn operands_in_every_notation() {
    assert_eq!(run("setrc 3 200"), Ok(vec![0x63, 200]));
    assert_eq!(run("setrc 0x3 0xC8"), Ok(vec![0x63, 200]));
    assert_eq!(run("setrc 0b11 0b11001000"), Ok(vec![0x63, 200]));
    assert_eq!(run("setrc V3 +200"), Ok(vec![0x63, 200]));
    assert_eq!(run("setrc Vf 0XC8"), Err(AssembleError::NotDecimal));
    assert_eq!(run("setrc Vf 0xc8"), Ok(vec![0x6F, 200]));
    assert_eq!(run("@r = V3 @v = 0xC8 setrc @r @v"), Ok(vec![0x63, 200]));
}

#[test]
fn operands_are_packed_without_a_range_check() {
    assert_eq!(run("setrc 0x1F 1"), Ok(vec![0x7F, 0x01]));
    assert_eq!(run("add 0x12 0x34"), Ok(vec![0x90, 0x34]));
    assert_eq!(run("setmr 7 255"), Ok(vec![0xFF, 0x07]));
}

#[test]
fn get_value_agrees_with_the_standard_parsers() {
    let alphabet = ['0', '1', '9', 'x', 'b', 'F', 'V', 'g', '+', '@'];
    for text in short_tokens(&alphabet, 5) {
        let expected = if text.starts_with("0x") {
            u8::from_str_radix(&text[2..], 16).map_err(|_| AssembleError::NotHex)
        } else if text.starts_with("0b") {
            u8::from_str_radix(&text[2..], 2).map_err(|_| AssembleError::NotBinary)
        } else if let Some(index) = is_register_name(&text) {
            Ok(index)
        } else {
            u8::from_str_radix(&text, 10).map_err(|_| AssembleError::NotDecimal)
        };
        assert_eq!(get_value(&token(&text)), expected, "{:?}", text);
    }
}

#[test]
fn get_value_exact_values() {
    assert_eq!(get_value(&token("0x05")), Ok(5));
    assert_eq!(get_value(&token("0xFF")), Ok(255));
    assert_eq!(get_value(&token("0x100")), Err(AssembleError::NotHex));
    assert_eq!(get_value(&token("0x")), Err(AssembleError::NotHex));
    assert_eq!(get_value(&token("0x0x10")), Err(AssembleError::NotHex));
    assert_eq!(get_value(&token("0x10x0")), Err(AssembleError::NotHex));
    assert_eq!(get_value(&token("0xZZ")), Err(AssembleError::NotHex));
    assert_eq!(get_value(&token("0x10")), Ok(16));
    assert_eq!(get_value(&token("0b0b1")), Err(AssembleError::NotBinary));
    assert_eq!(get_value(&token("0b12")), Err(AssembleError::NotBinary));
    assert_eq!(get_value(&token("12a")), Err(AssembleError::NotDecimal));
    assert_eq!(get_value(&token("300")), Err(AssembleError::NotDecimal));
    assert_eq!(get_value(&token("0b101")), Ok(5));
    assert_eq!(get_value(&token("0b102")), Err(AssembleError::NotBinary));
    assert_eq!(get_value(&token("0b")), Err(AssembleError::NotBinary));
    assert_eq!(get_value(&token("17")), Ok(17));
    assert_eq!(get_value(&token("256")), Err(AssembleError::NotDecimal));
    assert_eq!(get_value(&token("V0")), Ok(0));
    assert_eq!(get_value(&token("VF")), Ok(15));
    assert_eq!(get_value(&token("VG")), Err(AssembleError::NotDecimal));
    assert_eq!(get_value(&token("V10")), Err(AssembleError::NotDecimal));
    assert_eq!(get_value(&token("v1")), Err(AssembleError::NotDecimal));
    assert_eq!(get_value(&token("@x")), Err(AssembleError::NotDecimal));
    assert_eq!(get_value(&token("")), Err(AssembleError::NotDecimal));
}

#[test]
fn register_names_are_v_and_one_hex_digit() {
    for (index, digit) in "0123456789ABCDEF".chars().enumerate() {
        assert_eq!(register(&vec!['V', digit]), Some(index as u8));
    }
    assert_eq!(register(&token("Va")), Some(10));
    assert_eq!(register(&token("V")), None);
    assert_eq!(register(&token("VG")), None);
    assert_eq!(register(&token("V00")), None);
    assert_eq!(register(&token("X0")), None);
}

#[test]
fn get_label_reads_the_token_at_a_position() {
    let tokens = tokens_in("jump @end 0x10 V2 nine @a@b");
    assert_eq!(get_label(&tokens, 1), Ok(Label::Name(token("end"))));
    assert_eq!(get_label(&tokens, 2), Ok(Label::Value(16)));
    assert_eq!(get_label(&tokens, 3), Ok(Label::Value(2)));
    assert_eq!(get_label(&tokens, 4), Err(AssembleError::NotDecimal));
    assert_eq!(get_label(&tokens, 5), Ok(Label::Name(token("ab"))));
    assert_eq!(get_label(&tokens, 6), Err(AssembleError::ExpectedValue));
    assert_eq!(get_label(&tokens, 600), Err(AssembleError::ExpectedValue));
    assert_eq!(get_label(&tokens, 0), Err(AssembleError::NotDecimal));
    let marked = tokens_in("0x10x0 0b10b1 0x1F 0b11");
    assert_eq!(get_label(&marked, 0), Err(AssembleError::NotHex));
    assert_eq!(get_label(&marked, 1), Err(AssembleError::NotBinary));
    assert_eq!(get_label(&marked, 2), Ok(Label::Value(31)));
    assert_eq!(get_label(&marked, 3), Ok(Label::Value(3)));
}

#[test]
fn mnemonics_are_spelled_in_lower_case() {
    assert_eq!(mnemonic(&token("jump")), Some(Mnemonic::Jump));
    assert_eq!(mnemonic(&token("setrpc")), Some(Mnemonic::SetRpc));
    assert_eq!(mnemonic(&token("not")), Some(Mnemonic::Not));
    assert_eq!(mnemonic(&token("Jump")), None);
    assert_eq!(mnemonic(&token("jumps")), None);
    assert_eq!(mnemonic(&token("")), None);
    assert_eq!(Mnemonic::Jump.operand_count(), 1);
    assert_eq!(Mnemonic::SetRpc.operand_count(), 1);
    assert_eq!(Mnemonic::SetPcr.operand_count(), 1);
    assert_eq!(Mnemonic::Not.operand_count(), 1);
    assert_eq!(Mnemonic::SetMr.operand_count(), 2);
    assert_eq!(Mnemonic::SetMr.to_instruction(0xFF, 3), Instruction::SetMr { x: 3, addr: 0xFF });
    assert_eq!(Mnemonic::SetRm.to_instruction(3, 0xFF), Instruction::SetRm { x: 3, addr: 0xFF });
}

#[test]
fn every_lex_error_has_its_input() {
    assert_eq!(run("jump 0xZZ"), Err(AssembleError::NotHex));
    assert_eq!(run("jump 0b2"), Err(AssembleError::NotBinary));
    assert_eq!(run("jump twelve"), Err(AssembleError::NotDecimal));
    assert_eq!(run("jump 256"), Err(AssembleError::NotDecimal));
    assert_eq!(run("@x = nothing"), Err(AssembleError::NotDecimal));
    assert_eq!(run("add V0 0x"), Err(AssembleError::NotHex));
}

#[test]
fn the_first_error_in_source_order_wins() {
    assert_eq!(run("add 0xZZ 0b2"), Err(AssembleError::NotHex));
    assert_eq!(run("add 0b2 0xZZ"), Err(AssembleError::NotBinary));
    assert_eq!(run("jump @nowhere jump 0xZZ"), Err(AssembleError::NotHex));
    assert_eq!(run("jump @nowhere add V0"), Err(AssembleError::ExpectedValue));
}

#[test]
fn an_undefined_label_is_not_found() {
    assert_eq!(run("jump @nowhere"), Err(AssembleError::LabelNotFound));
    assert_eq!(run("@a = @b jump @a"), Err(AssembleError::LabelNotFound));
    assert_eq!(run("@a = @b"), Ok(Vec::new()));
}

#[test]
fn labels_defined_in_a_circle_are_reported() {
    assert_eq!(run("@a = @a jump @a"), Err(AssembleError::LabelCycle));
    assert_eq!(run("@a = @b @b = @a jump @b"), Err(AssembleError::LabelCycle));
    assert_eq!(run("@a = @b @b = @c @c = @a jump 1 jump @c"), Err(AssembleError::LabelCycle));
}

#[test]
fn labels_resolve_through_other_labels() {
    assert_eq!(run("@a = @b @b = 7 jump @a"), Ok(vec![0x00, 7]));
    assert_eq!(run("jump @a @a = @b @b = @c @c = @d @d = 0x2A"), Ok(vec![0x00, 0x2A]));
    assert_eq!(run("@a = @b jump 0 @b jump @a"), Ok(vec![0, 0, 0, 1]));
}

#[test]
fn the_last_definition_of_a_name_wins() {
    assert_eq!(run("@a = 1 @a = 2 jump @a"), Ok(vec![0x00, 2]));
    assert_eq!(run("@a = 1 jump @a @a = 2"), Ok(vec![0x00, 2]));
    assert_eq!(run("@a jump @a jump @a @a"), Ok(vec![0x00, 2, 0x00, 2]));
}

#[test]
fn a_bare_label_names_the_next_slot() {
    let binary = run("@top setrc V0 1 @mid add V0 V0 @end jump @top jump @mid jump @end");
    assert_eq!(binary, Ok(vec![0x60, 1, 0x90, 0x00, 0x00, 0, 0x00, 1, 0x00, 2]));
}

#[test]
fn label_names_ignore_their_at_signs() {
    assert_eq!(run("@lo@op = 9 jump @loop"), Ok(vec![0x00, 9]));
    assert_eq!(run("@loop = 9 jump @@loop@"), Ok(vec![0x00, 9]));
    assert_eq!(run("@ = 4 jump @"), Ok(vec![0x00, 4]));
}

#[test]
fn comments_are_skipped_token_by_token() {
    assert_eq!(run("/* setrc V0 1 */ setrc V1 2"), Ok(vec![0x61, 2]));
    assert_eq!(run("/*setrc V0 1*/ setrc V1 2"), Ok(vec![0x61, 2]));
    assert_eq!(run("setrc V1 2 /* jump"), Ok(vec![0x61, 2]));
    assert_eq!(run("/*note*/ setrc V1 2"), Ok(Vec::new()));
    assert_eq!(run("/*note*/ x */ setrc V1 2"), Ok(vec![0x61, 2]));
    assert_eq!(run("*/ setrc V1 2"), Ok(vec![0x61, 2]));
    assert_eq!(run("/* /* */ setrc V1 2 */"), Ok(vec![0x61, 2]));
    assert_eq!(run("@end*/ jump @end*/"), Err(AssembleError::LabelNotFound));
}

#[test]
fn operands_are_taken_whatever_they_look_like() {
    assert_eq!(run("jump /* 1 */"), Err(AssembleError::NotDecimal));
    assert_eq!(run("jump jump"), Err(AssembleError::NotDecimal));
    assert_eq!(run("jump = 3"), Err(AssembleError::NotDecimal));
    assert_eq!(run("@x = /* 3"), Err(AssembleError::NotDecimal));
}

#[test]
fn unknown_tokens_are_skipped() {
    assert_eq!(run("hello world"), Ok(Vec::new()));
    assert_eq!(run("= 3 V0 0x12 JUMP"), Ok(Vec::new()));
    assert_eq!(run("nop setrc V1 2 halt"), Ok(vec![0x61, 2]));
    assert_eq!(run(""), Ok(Vec::new()));
    assert_eq!(run(" \n\t "), Ok(Vec::new()));
}

#[test]
fn slots_end_at_255() {
    let full = "jump 0 ".repeat(256);
    assert_eq!(run(&full).map(|b| b.len()), Ok(512));
    let over = "jump 0 ".repeat(257);
    assert_eq!(run(&over), Err(AssembleError::SlotOverflow));
    let last = format!("{} @end jump @end", "jump 0 ".repeat(255));
    let binary = run(&last).unwrap();
    assert_eq!(&binary[510..], &[0x00, 255]);
    let past = format!("{} @end", "jump 0 ".repeat(256));
    assert_eq!(run(&past), Err(AssembleError::SlotOverflow));
    let explicit = format!("{} @end = 255", "jump 0 ".repeat(256));
    assert_eq!(run(&explicit).map(|b| b.len()), Ok(512));
    let full_fits = Machine::new(run(&full).unwrap());
    assert!(full_fits.is_ok());
}

#[test]
fn the_symbol_table_keeps_definitions_in_order() {
    let mut table = SymbolTable::new();
    assert!(table.lookup(&token("a")).is_none());
    table.define(token("a"), Label::Value(1));
    table.define(token("b"), Label::Name(token("a")));
    table.define(token("a"), Label::Value(3));
    assert_eq!(table.lookup(&token("a")), Some(&Label::Value(3)));
    assert_eq!(table.lookup(&token("b")), Some(&Label::Name(token("a"))));
    assert!(table.lookup(&token("c")).is_none());
    assert_eq!(table.definitions.len(), 3);
}

#[test]
fn label_to_u8_resolves_values_and_names() {
    let mut table = SymbolTable::new();
    assert_eq!(label_to_u8(&Label::Value(9), &table), Ok(9));
    assert_eq!(label_to_u8(&Label::Name(token("a")), &table), Err(AssembleError::LabelNotFound));
    table.define(token("a"), Label::Name(token("b")));
    table.define(token("b"), Label::Value(0x42));
    table.define(token("c"), Label::Name(token("c")));
    assert_eq!(label_to_u8(&Label::Name(token("a")), &table), Ok(0x42));
    assert_eq!(label_to_u8(&Label::Name(token("b")), &table), Ok(0x42));
    assert_eq!(label_to_u8(&Label::Name(token("c")), &table), Err(AssembleError::LabelCycle));
    assert_eq!(label_to_u8(&Label::Name(token("d")), &table), Err(AssembleError::LabelNotFound));
}

#[test]
fn a_chain_as_long_as_the_table_still_resolves() {
    let mut table = SymbolTable::new();
    table.define(token("n0"), Label::Value(5));
    for i in 1..40 {
        table.define(token(&format!("n{}", i)), Label::Name(token(&format!("n{}", i - 1))));
    }
    assert_eq!(label_to_u8(&Label::Name(token("n39")), &table), Ok(5));
}

#[test]
fn parse_gives_statements_and_definitions() {
    let listing = parse(&tokens_in("@start setrc V0 @seven @seven = 7 jump @start /* x")).unwrap();
    assert!(listing.in_comment);
    assert_eq!(
        listing.statements,
        vec![
            Statement {
                mnemonic: Mnemonic::SetRc,
                operands: vec![Label::Value(0), Label::Name(token("seven"))],
            },
            Statement { mnemonic: Mnemonic::Jump, operands: vec![Label::Name(token("start"))] },
        ]
    );
    assert_eq!(listing.labels.lookup(&token("start")), Some(&Label::Value(0)));
    assert_eq!(listing.labels.lookup(&token("seven")), Some(&Label::Value(7)));
    assert_eq!(emit(&listing), Ok(vec![0x60, 7, 0x00, 0]));
}

#[test]
fn a_statement_without_its_operands_is_reported() {
    let table = SymbolTable::new();
    let none = Statement { mnemonic: Mnemonic::Jump, operands: Vec::new() };
    assert_eq!(resolve_statement(&none, &table), Err(AssembleError::ExpectedValue));
    let one = Statement { mnemonic: Mnemonic::Add, operands: vec![Label::Value(1)] };
    assert_eq!(resolve_statement(&one, &table), Err(AssembleError::ExpectedValue));
    let two = Statement {
        mnemonic: Mnemonic::Add,
        operands: vec![Label::Value(1), Label::Value(2)],
    };
    assert_eq!(resolve_statement(&two, &table), Ok(Instruction::Add { x: 1, y: 2 }));
    let listing = Listing { in_comment: false, statements: vec![two, one], labels: table };
    assert_eq!(emit(&listing), Err(AssembleError::ExpectedValue));
}

#[test]
fn assemble_tokens_is_assemble_after_splitting() {
    let source = "@a = 3\n/* load */ setrc V1 @a\nsetmr 0xFF V1";
    assert_eq!(assemble_tokens(&tokens_in(source)), run(source));
    assert_eq!(run(source), Ok(vec![0x61, 3, 0x81, 0xFF]));
    assert_eq!(run("setrc\u{3000}V1\u{00A0}3"), Ok(vec![0x61, 3]));
}

#[test]
fn a_definition_and_an_instruction_can_change_places() {
    let before = "@x = 1 setrc V0 @x";
    let after = "setmr 255 V0 jump @end";
    let definition = "@end = 0x04";
    for instruction in ["jump @end", "setrc V1 @end", "add V0 V1", "ifeq @end @x"] {
        let backward = format!("{} {} {} {}", before, definition, instruction, after);
        let forward = format!("{} {} {} {}", before, instruction, definition, after);
        let binary = run(&backward);
        assert!(binary.is_ok());
        assert_eq!(binary, run(&forward));
        let mut first = Machine::new(binary.unwrap()).unwrap();
        let mut second = Machine::new(run(&forward).unwrap()).unwrap();
        assert_eq!(first.run_for(50), second.run_for(50));
        assert_eq!(first.registers(), second.registers());
        assert_eq!(first.memory(), second.memory());
        assert_eq!(first.pc(), second.pc());
    }
}

#[test]
fn a_definition_can_stand_anywhere_among_instructions() {
    let before = "@x = 1 setrc V0 @x";
    let stretch = "jump @end /* note */ setrc V1 @end nop add V0 V1 ifeq @x @end";
    let after = "setmr 255 V0 jump @end";
    let definition = "@end = 0x04";
    let expected = vec![
        0x60, 1, 0x00, 4, 0x61, 4, 0x90, 0x01, 0x10, 0x14, 0x80, 0xFF, 0x00, 4,
    ];
    let placements = [
        format!("{} {} {} {}", definition, before, stretch, after),
        format!("{} {} {} {}", before, definition, stretch, after),
        format!("{} {} {} {}", before, stretch, definition, after),
        format!("{} {} {} {}", before, stretch, after, definition),
    ];
    for source in &placements {
        assert_eq!(run(source), Ok(expected.clone()), "{}", source);
    }
    let undefined = format!("{} {} {}", before, stretch, after);
    assert_eq!(run(&undefined), Err(AssembleError::LabelNotFound));
}

#[test]
fn a_reference_stands_for_the_value_its_name_is_bound_to() {
    for value in [0u8, 1, 127, 255] {
        let forward = format!("jump @t setrc V2 @t @t = {}", value);
        let backward = format!("@t = {} jump @t setrc V2 @t", value);
        let expected = vec![0x00, value, 0x62, value];
        assert_eq!(run(&forward), Ok(expected.clone()));
        assert_eq!(run(&backward), Ok(expected));
    }
}
