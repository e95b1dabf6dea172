use vstd::prelude::*;
use crate::error::AsmError;
use crate::text::same_chars;

verus! {

/// The seven `a c1..c6` bits of a `comp` mnemonic.
pub open spec fn comp_bits(m: Seq<char>) -> Option<Seq<char>> {
    if m == "0"@ { Some("0101010"@) }
    else if m == "1"@ { Some("0111111"@) }
    else if m == "-1"@ { Some("0111010"@) }
    else if m == "D"@ { Some("0001100"@) }
    else if m == "A"@ { Some("0110000"@) }
    else if m == "!D"@ { Some("0001101"@) }
    else if m == "!A"@ { Some("0110001"@) }
    else if m == "-D"@ { Some("0001111"@) }
    else if m == "-A"@ { Some("0110011"@) }
    else if m == "D+1"@ { Some("0011111"@) }
    else if m == "A+1"@ { Some("0110111"@) }
    else if m == "D-1"@ { Some("0001110"@) }
    else if m == "A-1"@ { Some("0110010"@) }
    else if m == "D+A"@ { Some("0000010"@) }
    else if m == "D-A"@ { Some("0010011"@) }
    else if m == "A-D"@ { Some("0000111"@) }
    else if m == "D&A"@ { Some("0000000"@) }
    else if m == "D|A"@ { Some("0010101"@) }
    else if m == "M"@ { Some("1110000"@) }
    else if m == "!M"@ { Some("1110001"@) }
    else if m == "-M"@ { Some("1110011"@) }
    else if m == "M+1"@ { Some("1110111"@) }
    else if m == "M-1"@ { Some("1110010"@) }
    else if m == "D+M"@ { Some("1000010"@) }
    else if m == "D-M"@ { Some("1010011"@) }
    else if m == "M-D"@ { Some("1000111"@) }
    else if m == "D&M"@ { Some("1000000"@) }
    else if m == "D|M"@ { Some("1010101"@) }
    else { None }
}

/// The three `A M D` bits of a `dest` mnemonic.
pub open spec fn dest_bits(m: Seq<char>) -> Option<Seq<char>> {
    if m == "NULL"@ { Some("000"@) }
    else if m == "M"@ { Some("001"@) }
    else if m == "D"@ { Some("010"@) }
    else if m == "A"@ { Some("100"@) }
    else if m == "MD"@ { Some("011"@) }
    else if m == "AM"@ { Some("101"@) }
    else if m == "AD"@ { Some("110"@) }
    else if m == "AMD"@ { Some("111"@) }
    else { None }
}

/// The three `less equal greater` bits of a `jump` mnemonic.
pub open spec fn jump_bits(m: Seq<char>) -> Option<Seq<char>> {
    if m == "NULL"@ { Some("000"@) }
    else if m == "JGT"@ { Some("001"@) }
    else if m == "JEQ"@ { Some("010"@) }
    else if m == "JLT"@ { Some("100"@) }
    else if m == "JGE"@ { Some("011"@) }
    else if m == "JNE"@ { Some("101"@) }
    else if m == "JLE"@ { Some("110"@) }
    else if m == "JMP"@ { Some("111"@) }
    else { None }
}

/// What a table lookup gives: the bits, or `UnknownMnemonic` on a miss.
pub open spec fn lookup_result(bits: Option<Seq<char>>, r: Result<&'static str, AsmError>) -> bool {
    match bits {
        Some(b) => r is Ok && r->Ok_0@ == b,
        None => r == Err::<&'static str, AsmError>(AsmError::UnknownMnemonic),
    }
}

/// The bits of a `comp` mnemonic.
pub fn translate_op(operation: &Vec<char>) -> (r: Result<&'static str, AsmError>)
    ensures
        lookup_result(comp_bits(operation@), r),
{
    let m = operation;
    if same_chars(m, "0") { Ok("0101010") }
    else if same_chars(m, "1") { Ok("0111111") }
    else if same_chars(m, "-1") { Ok("0111010") }
    else if same_chars(m, "D") { Ok("0001100") }
    else if same_chars(m, "A") { Ok("0110000") }
    else if same_chars(m, "!D") { Ok("0001101") }
    else if same_chars(m, "!A") { Ok("0110001") }
    else if same_chars(m, "-D") { Ok("0001111") }
    else if same_chars(m, "-A") { Ok("0110011") }
    else if same_chars(m, "D+1") { Ok("0011111") }
    else if same_chars(m, "A+1") { Ok("0110111") }
    else if same_chars(m, "D-1") { Ok("0001110") }
    else if same_chars(m, "A-1") { Ok("0110010") }
    else if same_chars(m, "D+A") { Ok("0000010") }
    else if same_chars(m, "D-A") { Ok("0010011") }
    else if same_chars(m, "A-D") { Ok("0000111") }
    else if same_chars(m, "D&A") { Ok("0000000") }
    else if same_chars(m, "D|A") { Ok("0010101") }
    else if same_chars(m, "M") { Ok("1110000") }
    else if same_chars(m, "!M") { Ok("1110001") }
    else if same_chars(m, "-M") { Ok("1110011") }
    else if same_chars(m, "M+1") { Ok("1110111") }
    else if same_chars(m, "M-1") { Ok("1110010") }
    else if same_chars(m, "D+M") { Ok("1000010") }
    else if same_chars(m, "D-M") { Ok("1010011") }
    else if same_chars(m, "M-D") { Ok("1000111") }
    else if same_chars(m, "D&M") { Ok("1000000") }
    else if same_chars(m, "D|M") { Ok("1010101") }
    else { Err(AsmError::UnknownMnemonic) }
}

/// The bits of a `dest` mnemonic.
pub fn translate_dest(destination: &Vec<char>) -> (r: Result<&'static str, AsmError>)
    ensures
        lookup_result(dest_bits(destination@), r),
{
    let m = destination;
    if same_chars(m, "NULL") { Ok("000") }
    else if same_chars(m, "M") { Ok("001") }
    else if same_chars(m, "D") { Ok("010") }
    else if same_chars(m, "A") { Ok("100") }
    else if same_chars(m, "MD") { Ok("011") }
    else if same_chars(m, "AM") { Ok("101") }
    else if same_chars(m, "AD") { Ok("110") }
    else if same_chars(m, "AMD") { Ok("111") }
    else { Err(AsmError::UnknownMnemonic) }
}

/// The bits of a `jump` mnemonic.
pub fn translate_jmp(jump: &Vec<char>) -> (r: Result<&'static str, AsmError>)
    ensures
        lookup_result(jump_bits(jump@), r),
{
    let m = jump;
    if same_chars(m, "NULL") { Ok("000") }
    else if same_chars(m, "JGT") { Ok("001") }
    else if same_chars(m, "JEQ") { Ok("010") }
    else if same_chars(m, "JLT") { Ok("100") }
    else if same_chars(m, "JGE") { Ok("011") }
    else if same_chars(m, "JNE") { Ok("101") }
    else if same_chars(m, "JLE") { Ok("110") }
    else if same_chars(m, "JMP") { Ok("111") }
    else { Err(AsmError::UnknownMnemonic) }
}

/// Every character of `s` is `0` or `1`.
pub open spec fn is_bits(s: Seq<char>) -> bool {
    forall|i: int| 0 <= i < s.len() ==> s[i] == '0' || s[i] == '1'
}

/// Every `comp` entry is seven binary digits.
pub proof fn lemma_comp_width(m: Seq<char>)
    ensures
        comp_bits(m) is Some ==> comp_bits(m)->0.len() == 7 && is_bits(comp_bits(m)->0),
{
    reveal_strlit("0101010");
    reveal_strlit("0111111");
    reveal_strlit("0111010");
    reveal_strlit("0001100");
    reveal_strlit("0110000");
    reveal_strlit("0001101");
    reveal_strlit("0110001");
    reveal_strlit("0001111");
    reveal_strlit("0110011");
    reveal_strlit("0011111");
    reveal_strlit("0110111");
    reveal_strlit("0001110");
    reveal_strlit("0110010");
    reveal_strlit("0000010");
    reveal_strlit("0010011");
    reveal_strlit("0000111");
    reveal_strlit("0000000");
    reveal_strlit("0010101");
    reveal_strlit("1110000");
    reveal_strlit("1110001");
    reveal_strlit("1110011");
    reveal_strlit("1110111");
    reveal_strlit("1110010");
    reveal_strlit("1000010");
    reveal_strlit("1010011");
    reveal_strlit("1000111");
    reveal_strlit("1000000");
    reveal_strlit("1010101");
}

/// Every `dest` entry is three binary digits.
pub proof fn lemma_dest_width(m: Seq<char>)
    ensures
        dest_bits(m) is Some ==> dest_bits(m)->0.len() == 3 && is_bits(dest_bits(m)->0),
{
    reveal_strlit("000");
    reveal_strlit("001");
    reveal_strlit("010");
    reveal_strlit("100");
    reveal_strlit("011");
    reveal_strlit("101");
    reveal_strlit("110");
    reveal_strlit("111");
}

/// Every `jump` entry is three binary digits.
pub proof fn lemma_jump_width(m: Seq<char>)
    ensures
        jump_bits(m) is Some ==> jump_bits(m)->0.len() == 3 && is_bits(jump_bits(m)->0),
{
    reveal_strlit("000");
    reveal_strlit("001");
    reveal_strlit("010");
    reveal_strlit("100");
    reveal_strlit("011");
    reveal_strlit("101");
    reveal_strlit("110");
    reveal_strlit("111");
}

} // verus!
