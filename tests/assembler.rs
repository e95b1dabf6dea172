use hack_assembler::assembler::parse;
use hack_assembler::normalize::normalize;
use hack_assembler::{AsmError, Config, SymbolTable};

fn run(src: &str) -> Result<String, AsmError> {
    let mut table = SymbolTable::new();
    parse(&src.to_string(), &mut table)
}

fn chars(s: &str) -> Vec<char> {
    s.chars().collect()
}

#[test]
fn integer_a_instruction() {
    assert_eq!(run("@5\n").unwrap(), "0000000000000101\n");
}

#[test]
fn compute_with_destination() {
    assert_eq!(run("D=A\n").unwrap(), "1110110000010000\n");
}

#[test]
fn jump_without_destination() {
    assert_eq!(run("0;JMP\n").unwrap(), "1110101010000111\n");
}

#[test]
fn label_and_forward_reference() {
    // `(LOOP)` stands before the jump, which is the second instruction.
    assert_eq!(
        run("@LOOP\n(LOOP)\n0;JMP\n").unwrap(),
        "0000000000000001\n1110101010000111\n"
    );
    assert_eq!(
        run("(LOOP)\n@LOOP\n0;JMP\n").unwrap(),
        "0000000000000000\n1110101010000111\n"
    );
}

#[test]
fn variable_allocation() {
    let src = "@i\nM=0\n@i\nM=1\n@j\nM=0\n";
    let expected = "0000000000010000\n1110101010001000\n0000000000010000\n\
                    1110111111001000\n0000000000010001\n1110101010001000\n";
    assert_eq!(run(src).unwrap(), expected);
}

#[test]
fn preloaded_symbol() {
    assert_eq!(run("@KBD\n").unwrap(), "0110000000000000\n");
    assert_eq!(run("@SCREEN\n").unwrap(), "0100000000000000\n");
    assert_eq!(run("@THAT\n@R15\n").unwrap(), "0000000000000100\n0000000000001111\n");
}

#[test]
fn label_binds_next_instruction_address() {
    let src = "@1\n(A1)\n(A2)\nD=M\n@A1\n0;JMP\n@A2\n";
    let out = run(src).unwrap();
    let lines: Vec<&str> = out.lines().collect();
    assert_eq!(lines.len(), 5);
    assert_eq!(lines[2], "0000000000000001");
    assert_eq!(lines[4], "0000000000000001");
    let by_number = run("@1\nD=M\n@1\n0;JMP\n@1\n").unwrap();
    assert_eq!(out, by_number);
}

#[test]
fn variables_grow_in_order_of_first_use() {
    let out = run("@b\n@a\n@b\n@c\n").unwrap();
    let lines: Vec<&str> = out.lines().collect();
    assert_eq!(lines, vec!["0000000000010000", "0000000000010001", "0000000000010000", "0000000000010010"]);
}

#[test]
fn output_shape() {
    let src = "// header\n@2\nD=A\n(X)\n@3\nD=D+A\n  @0 // store\nM=D\n@X\n0;JMP\n";
    let out = run(src).unwrap();
    let lines: Vec<&str> = out.lines().collect();
    assert_eq!(lines.len(), 8);
    assert!(out.ends_with('\n'));
    for l in &lines {
        assert_eq!(l.len(), 16);
        assert!(l.chars().all(|c| c == '0' || c == '1'));
    }
    assert!(lines[0].starts_with('0'));
    assert!(lines[1].starts_with("111"));
    assert!(lines[3].starts_with("111"));
    assert_eq!(lines[6], "0000000000000010");
    assert_eq!(lines[7], "1110101010000111");
}

#[test]
fn normalize_spells_out_defaults() {
    let src = "  // comment\n\n D = M + 1 ; JGT // inc\n0;JMP\nAM=M-1\n@ 12\n( LOOP )\r\n";
    let once = normalize(&src.to_string());
    assert_eq!(once, "D=M+1;JGT\nNULL=0;JMP\nAM=M-1;NULL\n@12\n(LOOP)\n");
}

#[test]
fn normalize_is_idempotent() {
    let src = "  // comment\n\tD = M ; JGT // x\n0;JMP\r\nM=D\n(END)\n@END // y\n/ /z\n";
    let once = normalize(&src.to_string());
    let twice = normalize(&once);
    assert_eq!(once, twice);
    assert_eq!(normalize(&String::new()), "");
}

#[test]
fn every_comp_mnemonic() {
    let table = [
        ("0", "0101010"), ("1", "0111111"), ("-1", "0111010"), ("D", "0001100"),
        ("A", "0110000"), ("!D", "0001101"), ("!A", "0110001"), ("-D", "0001111"),
        ("-A", "0110011"), ("D+1", "0011111"), ("A+1", "0110111"), ("D-1", "0001110"),
        ("A-1", "0110010"), ("D+A", "0000010"), ("D-A", "0010011"), ("A-D", "0000111"),
        ("D&A", "0000000"), ("D|A", "0010101"), ("M", "1110000"), ("!M", "1110001"),
        ("-M", "1110011"), ("M+1", "1110111"), ("M-1", "1110010"), ("D+M", "1000010"),
        ("D-M", "1010011"), ("M-D", "1000111"), ("D&M", "1000000"), ("D|M", "1010101"),
    ];
    for (m, bits) in table {
        let out = run(&format!("{}\n", m)).unwrap();
        assert_eq!(out, format!("111{}000000\n", bits));
    }
}

#[test]
fn every_dest_and_jump_mnemonic() {
    let dests = [("M", "001"), ("D", "010"), ("MD", "011"), ("A", "100"), ("AM", "101"), ("AD", "110"), ("AMD", "111")];
    for (m, bits) in dests {
        assert_eq!(run(&format!("{}=0\n", m)).unwrap(), format!("1110101010{}000\n", bits));
    }
    let jumps = [("JGT", "001"), ("JEQ", "010"), ("JGE", "011"), ("JLT", "100"), ("JNE", "101"), ("JLE", "110"), ("JMP", "111")];
    for (m, bits) in jumps {
        assert_eq!(run(&format!("D;{}\n", m)).unwrap(), format!("1110001100000{}\n", bits));
    }
}

#[test]
fn unknown_mnemonics() {
    assert_eq!(run("M+D\n"), Err(AsmError::UnknownMnemonic));
    assert_eq!(run("X=D\n"), Err(AsmError::UnknownMnemonic));
    assert_eq!(run("D;JXX\n"), Err(AsmError::UnknownMnemonic));
    assert_eq!(run("=;\n"), Err(AsmError::UnknownMnemonic));
    assert_eq!(run("D;JMP;JMP\n"), Err(AsmError::UnknownMnemonic));
}

#[test]
fn bad_integer() {
    assert_eq!(run("@12a\n"), Err(AsmError::BadInteger));
}

#[test]
fn address_out_of_range() {
    assert_eq!(run("@32767\n").unwrap(), "0111111111111111\n");
    assert_eq!(run("@32768\n"), Err(AsmError::AddressOutOfRange));
    assert_eq!(run("@99999999999999999999\n"), Err(AsmError::AddressOutOfRange));
}

#[test]
fn malformed_instructions() {
    assert_eq!(run("@\n"), Err(AsmError::MalformedInstruction));
    assert_eq!(run("D;JMP=A\n"), Err(AsmError::MalformedInstruction));
}

#[test]
fn first_failure_discards_output() {
    assert_eq!(run("@1\nD=A\nQ=D\n@2\n"), Err(AsmError::UnknownMnemonic));
}

#[test]
fn label_without_close_binds_nothing() {
    assert_eq!(run("(X\n@X\n").unwrap(), "0000000000010000\n");
}

#[test]
fn duplicate_label_keeps_last() {
    assert_eq!(run("(X)\n@1\n(X)\n@X\n").unwrap(), "0000000000000001\n0000000000000001\n");
}

#[test]
fn symbol_space_exhausted() {
    let mut table = SymbolTable::new();
    for k in 16..16384usize {
        assert_eq!(table.insert(&chars(&format!("v{}", k)), None), Ok(k));
    }
    assert_eq!(table.insert(&chars("w"), None), Err(AsmError::SymbolSpaceExhausted));
    assert_eq!(parse(&"@w\n".to_string(), &mut table), Err(AsmError::SymbolSpaceExhausted));
    assert_eq!(parse(&"@v20\n@R1\n".to_string(), &mut table).unwrap(), "0000000000010100\n0000000000000001\n");
}

#[test]
fn table_lookup_and_binding() {
    let mut table = SymbolTable::new();
    assert_eq!(table.get(&chars("SP")), Some(0));
    assert_eq!(table.get(&chars("R0")), Some(0));
    assert_eq!(table.get(&chars("KBD")), Some(24576));
    assert_eq!(table.get(&chars("loop")), None);
    assert_eq!(table.insert(&chars("SP"), Some(7)), Ok(7));
    assert_eq!(table.get(&chars("SP")), Some(7));
    assert_eq!(table.get(&chars("R0")), Some(0));
    assert_eq!(table.insert(&chars("x"), None), Ok(16));
    assert_eq!(table.insert(&chars("y"), None), Ok(17));
}

#[test]
fn config_needs_a_path() {
    let args = vec!["prog".to_string()];
    assert_eq!(Config::new(&args).err(), Some("not enough arguments"));
    let args = vec!["prog".to_string(), "Add.asm".to_string()];
    assert_eq!(Config::new(&args).unwrap().path, "Add.asm");
}

#[test]
fn last_line_without_newline() {
    assert_eq!(run("@5").unwrap(), "0000000000000101\n");
    assert_eq!(run("@1\r\nM=D\r\n").unwrap(), "0000000000000001\n1110001100001000\n");
    assert_eq!(run("").unwrap(), "");
}
