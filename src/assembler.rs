use vstd::prelude::*;
use crate::error::AsmError;
use crate::normalize::{canonical_lines, normalized_lines, views};
use crate::opcodes::{
    comp_bits, dest_bits, is_bits, jump_bits, lemma_comp_width, lemma_dest_width, lemma_jump_width,
    translate_dest, translate_jmp, translate_op,
};
use crate::symbols::{allocate, bind, SymbolTable, Symbols, FIRST_VARIABLE, RAM_LIMIT};
use crate::text::{
    append_chars, append_to_string, chars_of, find_char, find_from, is_digit, lemma_find_from, push_char,
    slice_of,
};

verus! {

/// The largest value an A-instruction can load.
pub const MAX_ADDRESS: usize = 32767;

/// Width of an instruction word.
pub const WORD_BITS: usize = 16;

/// Two to the power `w`.
pub open spec fn pow2(w: nat) -> nat
    decreases w,
{
    if w == 0 {
        1
    } else {
        2 * pow2((w - 1) as nat)
    }
}

/// `n` in binary on `w` digits, most significant first, for `n < 2^w`.
pub open spec fn bits_of(n: nat, w: nat) -> Seq<char>
    decreases w,
{
    if w == 0 {
        seq![]
    } else if n >= pow2((w - 1) as nat) {
        seq!['1'] + bits_of((n - pow2((w - 1) as nat)) as nat, (w - 1) as nat)
    } else {
        seq!['0'] + bits_of(n, (w - 1) as nat)
    }
}

/// The A-instruction word that loads `n`.
pub open spec fn a_word(n: nat) -> Seq<char> {
    bits_of(n, 16)
}

/// Every character of `s` is a decimal digit.
pub open spec fn all_digits(s: Seq<char>) -> bool {
    forall|i: int| 0 <= i < s.len() ==> is_digit(s[i])
}

/// The value of a decimal digit.
pub open spec fn digit_value(c: char) -> nat {
    ((c as u32) - ('0' as u32)) as nat
}

/// The number that the decimal digits `s` spell.
pub open spec fn digits_value(s: Seq<char>) -> nat
    decreases s.len(),
{
    if s.len() == 0 {
        0
    } else {
        digits_value(s.drop_last()) * 10 + digit_value(s.last())
    }
}

/// The value that an A-instruction operand loads, and the table after it:
/// a decimal literal, or a name's address, or a fresh variable's address.
pub open spec fn a_value(tok: Seq<char>, st: Symbols) -> (Symbols, Result<nat, AsmError>) {
    if tok.len() == 0 {
        (st, Err(AsmError::MalformedInstruction))
    } else if is_digit(tok[0]) {
        if !all_digits(tok) {
            (st, Err(AsmError::BadInteger))
        } else if digits_value(tok) > MAX_ADDRESS {
            (st, Err(AsmError::AddressOutOfRange))
        } else {
            (st, Ok(digits_value(tok)))
        }
    } else if st.map.contains_key(tok) {
        if st.map[tok] <= MAX_ADDRESS {
            (st, Ok(st.map[tok]))
        } else {
            (st, Err(AsmError::AddressOutOfRange))
        }
    } else if st.next < RAM_LIMIT {
        (allocate(st, tok), Ok(st.next))
    } else {
        (st, Err(AsmError::SymbolSpaceExhausted))
    }
}

/// The word of a C-instruction `DEST=COMP;JUMP`: `111`, then the comp, dest
/// and jump bits.
pub open spec fn c_word(line: Seq<char>) -> Result<Seq<char>, AsmError> {
    let i = find_from(line, '=', 0);
    if i >= line.len() {
        Err(AsmError::MalformedInstruction)
    } else {
        let dest = line.take(i);
        let right = line.skip(i + 1);
        let j = find_from(right, ';', 0);
        if j >= right.len() {
            Err(AsmError::MalformedInstruction)
        } else {
            let comp = right.take(j);
            let jump = right.skip(j + 1);
            if comp_bits(comp) is None || dest_bits(dest) is None || jump_bits(jump) is None {
                Err(AsmError::UnknownMnemonic)
            } else {
                Ok(seq!['1', '1', '1'] + comp_bits(comp)->0 + dest_bits(dest)->0 + jump_bits(
                    jump,
                )->0)
            }
        }
    }
}

/// An A-instruction line: `@` and an operand.
pub open spec fn is_a_line(line: Seq<char>) -> bool {
    line.len() > 0 && line[0] == '@'
}

/// A label line: `(`, a name and `)`.
pub open spec fn is_label_line(line: Seq<char>) -> bool {
    line.len() > 0 && line[0] == '('
}

/// The word of one instruction line, and the table after it.
pub open spec fn encode(line: Seq<char>, st: Symbols) -> (Symbols, Result<Seq<char>, AsmError>) {
    if is_a_line(line) {
        let (st2, v) = a_value(line.drop_first(), st);
        (
            st2,
            match v {
                Ok(n) => Ok(a_word(n)),
                Err(e) => Err(e),
            },
        )
    } else {
        (st, c_word(line))
    }
}

/// The name a label line binds: what stands between `(` and the first `)`.
pub open spec fn label_name(line: Seq<char>) -> Seq<char> {
    line.subrange(1, find_from(line, ')', 0))
}

/// The label line holds a `)`.
pub open spec fn has_label(line: Seq<char>) -> bool {
    find_from(line, ')', 0) < line.len()
}

/// The first pass: label lines bind their names to the number of
/// instructions before them; the instruction lines are kept in order.
pub open spec fn pass1(ls: Seq<Seq<char>>, st: Symbols) -> (Symbols, Seq<Seq<char>>)
    decreases ls.len(),
{
    if ls.len() == 0 {
        (st, seq![])
    } else {
        let (st1, instrs) = pass1(ls.drop_last(), st);
        let l = ls.last();
        if is_label_line(l) {
            if has_label(l) {
                (bind(st1, label_name(l), instrs.len()), instrs)
            } else {
                (st1, instrs)
            }
        } else {
            (st1, instrs.push(l))
        }
    }
}

/// The second pass: each instruction's word and a `\n`, up to the first
/// failure.
pub open spec fn pass2(ls: Seq<Seq<char>>, st: Symbols) -> (Symbols, Result<Seq<char>, AsmError>)
    decreases ls.len(),
{
    if ls.len() == 0 {
        (st, Ok(seq![]))
    } else {
        let (st1, r) = pass2(ls.drop_last(), st);
        match r {
            Err(e) => (st1, Err(e)),
            Ok(out) => {
                let (st2, w) = encode(ls.last(), st1);
                (
                    st2,
                    match w {
                        Ok(word) => Ok(out + word.push('\n')),
                        Err(e) => Err(e),
                    },
                )
            },
        }
    }
}

/// The instruction lines of a source text, in order.
pub open spec fn instructions(src: Seq<char>, st: Symbols) -> Seq<Seq<char>> {
    pass1(canonical_lines(src), st).1
}

/// The table once every label of a source text is bound.
pub open spec fn labels_bound(src: Seq<char>, st: Symbols) -> Symbols {
    pass1(canonical_lines(src), st).0
}

/// What translating a source text gives: the table after it, and the
/// machine code or the first failure.
pub open spec fn assemble(src: Seq<char>, st: Symbols) -> (Symbols, Result<Seq<char>, AsmError>) {
    pass2(instructions(src, st), labels_bound(src, st))
}

/// A word as a character sequence, or the failure.
pub open spec fn word_view(r: Result<Vec<char>, AsmError>) -> Result<Seq<char>, AsmError> {
    match r {
        Ok(w) => Ok(w@),
        Err(e) => Err(e),
    }
}

/// `n` as sixteen binary digits.
fn word_of(n: usize) -> (r: Vec<char>)
    requires
        n <= MAX_ADDRESS,
    ensures
        r@ == a_word(n as nat),
{
    let mut out: Vec<char> = Vec::new();
    let mut m: usize = n;
    let mut w: usize = WORD_BITS;
    let mut p: usize = 32768;
    proof {
        reveal_with_fuel(pow2, 17);
    }
    assert(pow2(15) == 32768);
    assert(pow2(16) == 65536);
    while w > 0
        invariant
            w <= 16,
            w > 0 ==> p as nat == pow2((w - 1) as nat),
            m < pow2(w as nat),
            out@ + bits_of(m as nat, w as nat) == a_word(n as nat),
        decreases w,
    {
        let ghost before = out@;
        let ghost mm = m as nat;
        if m >= p {
            out.push('1');
            m = m - p;
        } else {
            out.push('0');
        }
        assert(out@ + bits_of(m as nat, (w - 1) as nat) =~= before + bits_of(mm, w as nat));
        w -= 1;
        if w > 0 {
            p = p / 2;
        }
    }
    assert(out@ + seq![] =~= out@);
    out
}

proof fn lemma_digits_monotone(s: Seq<char>, i: int)
    requires
        0 <= i <= s.len(),
    ensures
        digits_value(s.take(i)) <= digits_value(s),
    decreases s.len(),
{
    if i < s.len() {
        assert(s.drop_last().take(i) =~= s.take(i));
        lemma_digits_monotone(s.drop_last(), i);
    } else {
        assert(s.take(i) =~= s);
    }
}

/// The value of a decimal operand that starts with a digit.
fn number_value(tok: &Vec<char>) -> (r: Result<usize, AsmError>)
    requires
        tok.len() > 0,
        is_digit(tok[0]),
    ensures
        r is Ok <==> all_digits(tok@) && digits_value(tok@) <= MAX_ADDRESS,
        r is Ok ==> r->Ok_0 as nat == digits_value(tok@),
        r is Err ==> r->Err_0 == if all_digits(tok@) {
            AsmError::AddressOutOfRange
        } else {
            AsmError::BadInteger
        },
{
    let mut i: usize = 0;
    while i < tok.len()
        invariant
            i <= tok.len(),
            forall|j: int| 0 <= j < i ==> is_digit(tok@[j]),
        decreases tok.len() - i,
    {
        if !('0' <= tok[i] && tok[i] <= '9') {
            assert(!is_digit(tok@[i as int]));
            return Err(AsmError::BadInteger);
        }
        i += 1;
    }
    let mut acc: usize = 0;
    i = 0;
    assert(tok@.take(0) =~= seq![]);
    while i < tok.len()
        invariant
            i <= tok.len(),
            all_digits(tok@),
            acc <= MAX_ADDRESS,
            acc as nat == digits_value(tok@.take(i as int)),
        decreases tok.len() - i,
    {
        assert(tok@.take(i + 1).drop_last() =~= tok@.take(i as int));
        let d = (tok[i] as u32 - '0' as u32) as usize;
        acc = acc * 10 + d;
        i += 1;
        if acc > MAX_ADDRESS {
            proof {
                lemma_digits_monotone(tok@, i as int);
            }
            return Err(AsmError::AddressOutOfRange);
        }
    }
    assert(tok@.take(tok.len() as int) =~= tok@);
    Ok(acc)
}

/// The word of an A-instruction line; a name not in the table becomes a
/// variable.
pub fn parse_a(line: &Vec<char>, table: &mut SymbolTable) -> (r: Result<Vec<char>, AsmError>)
    requires
        old(table).wf(),
        is_a_line(line@),
    ensures
        final(table).wf(),
        (final(table)@, word_view(r)) == encode(line@, old(table)@),
{
    let tok = slice_of(line, 1, line.len());
    assert(tok@ =~= line@.drop_first());
    if tok.len() == 0 {
        return Err(AsmError::MalformedInstruction);
    }
    let n: usize;
    if '0' <= tok[0] && tok[0] <= '9' {
        match number_value(&tok) {
            Ok(v) => {
                n = v;
            },
            Err(e) => {
                return Err(e);
            },
        }
    } else {
        match table.get(&tok) {
            Some(a) => {
                if a > MAX_ADDRESS {
                    return Err(AsmError::AddressOutOfRange);
                }
                n = a;
            },
            None => {
                proof {
                    table.lemma_cursor();
                }
                match table.insert(&tok, None) {
                    Ok(a) => {
                        n = a;
                    },
                    Err(e) => {
                        return Err(e);
                    },
                }
            },
        }
    }
    Ok(word_of(n))
}

/// The word of a C-instruction line `DEST=COMP;JUMP`.
pub fn parse_c(line: &Vec<char>) -> (r: Result<Vec<char>, AsmError>)
    ensures
        word_view(r) == c_word(line@),
{
    let i = find_char(line, '=', 0);
    if i >= line.len() {
        return Err(AsmError::MalformedInstruction);
    }
    let dest = slice_of(line, 0, i);
    let right = slice_of(line, i + 1, line.len());
    assert(right@ =~= line@.skip(i + 1));
    let j = find_char(&right, ';', 0);
    if j >= right.len() {
        return Err(AsmError::MalformedInstruction);
    }
    let op = slice_of(&right, 0, j);
    let jmp = slice_of(&right, j + 1, right.len());
    assert(jmp@ =~= right@.skip(j + 1));
    let c = translate_op(&op);
    let d = translate_dest(&dest);
    let k = translate_jmp(&jmp);
    match (c, d, k) {
        (Ok(cb), Ok(db), Ok(kb)) => {
            let mut out: Vec<char> = Vec::new();
            out.push('1');
            out.push('1');
            out.push('1');
            let cv = chars_of(cb);
            let dv = chars_of(db);
            let kv = chars_of(kb);
            append_chars(&mut out, &cv);
            append_chars(&mut out, &dv);
            append_chars(&mut out, &kv);
            assert(out@ =~= seq!['1', '1', '1'] + cv@ + dv@ + kv@);
            Ok(out)
        },
        _ => Err(AsmError::UnknownMnemonic),
    }
}

/// Binds the name of a label line to the instruction address `n`; a line
/// without `)` binds nothing.
pub fn parse_l(line: &Vec<char>, n: usize, table: &mut SymbolTable)
    requires
        old(table).wf(),
        is_label_line(line@),
    ensures
        final(table).wf(),
        final(table)@ == if has_label(line@) {
            bind(old(table)@, label_name(line@), n as nat)
        } else {
            old(table)@
        },
{
    let ix = find_char(line, ')', 0);
    proof {
        lemma_find_from(line@, ')', 0);
    }
    if ix < line.len() {
        let name = slice_of(line, 1, ix);
        let _ = table.insert(&name, Some(n));
    }
}

/// A text as a character sequence, or the failure.
pub open spec fn text_view(r: Result<String, AsmError>) -> Result<Seq<char>, AsmError> {
    match r {
        Ok(s) => Ok(s@),
        Err(e) => Err(e),
    }
}

proof fn lemma_pass2_stuck(ls: Seq<Seq<char>>, st: Symbols, k: int)
    requires
        0 <= k <= ls.len(),
        pass2(ls.take(k), st).1 is Err,
    ensures
        pass2(ls, st) == pass2(ls.take(k), st),
    decreases ls.len(),
{
    if k == ls.len() {
        assert(ls.take(k) =~= ls);
    } else {
        assert(ls.drop_last().take(k) =~= ls.take(k));
        lemma_pass2_stuck(ls.drop_last(), st, k);
    }
}

/// Translates a source text into machine code, one line of sixteen binary
/// digits per instruction; labels are resolved first, then unknown names
/// become variables. The first failure ends the translation.
pub fn parse(content: &String, table: &mut SymbolTable) -> (r: Result<String, AsmError>)
    requires
        old(table).wf(),
    ensures
        final(table).wf(),
        final(table)@ == assemble(content@, old(table)@).0,
        text_view(r) == assemble(content@, old(table)@).1,
{
    let ghost st0 = table@;
    let src = chars_of(content.as_str());
    let lines = normalized_lines(&src);
    let ghost ls = views(lines@);
    let mut no_labels: Vec<Vec<char>> = Vec::new();
    let mut i: usize = 0;
    assert(ls.take(0) =~= seq![]);
    assert(views(no_labels@) =~= seq![]);
    // first pass: labels
    while i < lines.len()
        invariant
            i <= lines.len(),
            ls == views(lines@),
            table.wf(),
            pass1(ls.take(i as int), st0) == (table@, views(no_labels@)),
        decreases lines.len() - i,
    {
        assert(ls.take(i + 1).drop_last() =~= ls.take(i as int));
        assert(ls.take(i + 1).last() == lines[i as int]@);
        let line = &lines[i];
        if line.len() > 0 && line[0] == '(' {
            parse_l(line, no_labels.len(), table);
        } else {
            let ghost before = no_labels@;
            let copy = slice_of(line, 0, line.len());
            assert(copy@ =~= line@);
            no_labels.push(copy);
            assert(views(no_labels@) =~= views(before).push(line@));
        }
        i += 1;
    }
    assert(ls.take(lines.len() as int) =~= ls);
    let ghost st1 = table@;
    let ghost instrs = views(no_labels@);
    // second pass: instructions
    let mut parsed = String::new();
    let mut j: usize = 0;
    assert(instrs.take(0) =~= seq![]);
    while j < no_labels.len()
        invariant
            j <= no_labels.len(),
            instrs == views(no_labels@),
            assemble(content@, st0) == pass2(instrs, st1),
            st0 == old(table)@,
            table.wf(),
            pass2(instrs.take(j as int), st1) == (table@, Ok::<Seq<char>, AsmError>(parsed@)),
        decreases no_labels.len() - j,
    {
        assert(instrs.take(j + 1).drop_last() =~= instrs.take(j as int));
        assert(instrs.take(j + 1).last() == no_labels[j as int]@);
        let line = &no_labels[j];
        let ghost tb = table@;
        let w = if line.len() > 0 && line[0] == '@' {
            parse_a(line, table)
        } else {
            parse_c(line)
        };
        match w {
            Ok(word) => {
                append_to_string(&mut parsed, &word);
                push_char(&mut parsed, '\n');
            },
            Err(e) => {
                proof {
                    assert(encode(instrs.take(j + 1).last(), tb) == (table@, Err::<Seq<char>, AsmError>(e)));
                    assert(pass2(instrs.take(j + 1), st1) == (table@, Err::<Seq<char>, AsmError>(e)));
                    lemma_pass2_stuck(instrs, st1, j + 1);
                }
                return Err(e);
            },
        }
        j += 1;
    }
    assert(instrs.take(no_labels.len() as int) =~= instrs);
    Ok(parsed)
}

/// The lines of `ls` that are not labels, in order.
pub open spec fn real_lines(ls: Seq<Seq<char>>) -> Seq<Seq<char>>
    decreases ls.len(),
{
    if ls.len() == 0 {
        seq![]
    } else if is_label_line(ls.last()) {
        real_lines(ls.drop_last())
    } else {
        real_lines(ls.drop_last()).push(ls.last())
    }
}

/// One output line: sixteen binary digits, then `\n`.
pub open spec fn is_word_line(w: Seq<char>) -> bool {
    w.len() == 17 && is_bits(w.take(16)) && w[16] == '\n'
}

/// The output line of the `r`-th instruction.
pub open spec fn output_line(out: Seq<char>, r: int) -> Seq<char> {
    out.subrange(17 * r, 17 * r + 17)
}

/// The word fits its line: an A-instruction word starts with `0`, a
/// C-instruction word with `111`.
pub open spec fn word_fits(line: Seq<char>, word: Seq<char>) -> bool {
    &&& word.len() == 16
    &&& is_bits(word)
    &&& is_a_line(line) ==> word[0] == '0'
    &&& !is_a_line(line) ==> word.take(3) == seq!['1', '1', '1']
}

proof fn lemma_bits_of(n: nat, w: nat)
    requires
        n < pow2(w),
    ensures
        bits_of(n, w).len() == w,
        is_bits(bits_of(n, w)),
    decreases w,
{
    if w > 0 {
        if n >= pow2((w - 1) as nat) {
            lemma_bits_of((n - pow2((w - 1) as nat)) as nat, (w - 1) as nat);
        } else {
            lemma_bits_of(n, (w - 1) as nat);
        }
        let b = bits_of(n, w);
        assert forall|i: int| 0 <= i < b.len() implies b[i] == '0' || b[i] == '1' by {
            if i > 0 {
                if n >= pow2((w - 1) as nat) {
                    assert(b[i] == bits_of((n - pow2((w - 1) as nat)) as nat, (w - 1) as nat)[i - 1]);
                } else {
                    assert(b[i] == bits_of(n, (w - 1) as nat)[i - 1]);
                }
            }
        }
    }
}

proof fn lemma_encode_fits(line: Seq<char>, st: Symbols)
    requires
        encode(line, st).1 is Ok,
    ensures
        word_fits(line, encode(line, st).1->Ok_0),
{
    reveal_with_fuel(pow2, 17);
    if is_a_line(line) {
        let n = a_value(line.drop_first(), st).1->Ok_0;
        assert(n <= MAX_ADDRESS);
        lemma_bits_of(n, 16);
    } else {
        let w = c_word(line)->Ok_0;
        let i = find_from(line, '=', 0);
        let right = line.skip(i + 1);
        let j = find_from(right, ';', 0);
        let comp = right.take(j);
        let dest = line.take(i);
        let jump = right.skip(j + 1);
        lemma_comp_width(comp);
        lemma_dest_width(dest);
        lemma_jump_width(jump);
        let c = comp_bits(comp)->0;
        let d = dest_bits(dest)->0;
        let k = jump_bits(jump)->0;
        assert(w == seq!['1', '1', '1'] + c + d + k);
        assert(w.take(3) =~= seq!['1', '1', '1']);
        assert forall|x: int| 0 <= x < w.len() implies w[x] == '0' || w[x] == '1' by {
            if 3 <= x < 10 {
                assert(w[x] == c[x - 3]);
            } else if 10 <= x < 13 {
                assert(w[x] == d[x - 10]);
            } else if 13 <= x {
                assert(w[x] == k[x - 13]);
            }
        }
    }
}

proof fn lemma_pass1_real(ls: Seq<Seq<char>>, st: Symbols)
    ensures
        pass1(ls, st).1 == real_lines(ls),
    decreases ls.len(),
{
    if ls.len() > 0 {
        lemma_pass1_real(ls.drop_last(), st);
    }
}

proof fn lemma_pass2_shape(ls: Seq<Seq<char>>, st: Symbols)
    requires
        pass2(ls, st).1 is Ok,
    ensures
        pass2(ls, st).1->Ok_0.len() == 17 * ls.len(),
        forall|r: int|
            0 <= r < ls.len() ==> {
                let w = #[trigger] output_line(pass2(ls, st).1->Ok_0, r);
                &&& is_word_line(w)
                &&& word_fits(ls[r], w.take(16))
            },
    decreases ls.len(),
{
    if ls.len() > 0 {
        let n = ls.len() - 1;
        let (st1, r1) = pass2(ls.drop_last(), st);
        lemma_pass2_shape(ls.drop_last(), st);
        let prev = r1->Ok_0;
        let word = encode(ls.last(), st1).1->Ok_0;
        lemma_encode_fits(ls.last(), st1);
        let out = pass2(ls, st).1->Ok_0;
        assert(out == prev + word.push('\n'));
        assert forall|r: int| 0 <= r < ls.len() implies {
            let w = #[trigger] output_line(out, r);
            &&& is_word_line(w)
            &&& word_fits(ls[r], w.take(16))
        } by {
            if r < n {
                assert(17 * r + 17 <= 17 * n) by (nonlinear_arith)
                    requires
                        r < n,
                ;
                assert(output_line(out, r) =~= output_line(prev, r));
                assert(ls.drop_last()[r] == ls[r]);
            } else {
                assert(output_line(out, r) =~= word.push('\n'));
                assert(word.push('\n').take(16) =~= word);
            }
        }
    }
}

/// Every output line is sixteen binary digits and a `\n`, one per
/// instruction: labels, blank lines and comments give no output.
pub proof fn lemma_output_lines(src: Seq<char>, st: Symbols)
    requires
        assemble(src, st).1 is Ok,
    ensures
        instructions(src, st) == real_lines(canonical_lines(src)),
        assemble(src, st).1->Ok_0.len() == 17 * instructions(src, st).len(),
        forall|r: int|
            0 <= r < instructions(src, st).len() ==> is_word_line(
                #[trigger] output_line(assemble(src, st).1->Ok_0, r),
            ),
{
    lemma_pass1_real(canonical_lines(src), st);
    lemma_pass2_shape(instructions(src, st), labels_bound(src, st));
}

/// The output line of every C-instruction starts with `111`.
pub proof fn lemma_c_prefix(src: Seq<char>, st: Symbols)
    requires
        assemble(src, st).1 is Ok,
    ensures
        forall|r: int|
            0 <= r < instructions(src, st).len() && !is_a_line(instructions(src, st)[r])
                ==> (#[trigger] output_line(assemble(src, st).1->Ok_0, r)).take(3) == seq![
                '1',
                '1',
                '1',
            ],
{
    let out = assemble(src, st).1->Ok_0;
    lemma_pass2_shape(instructions(src, st), labels_bound(src, st));
    assert forall|r: int|
        0 <= r < instructions(src, st).len() && !is_a_line(
            instructions(src, st)[r],
        ) implies (#[trigger] output_line(out, r)).take(3) == seq!['1', '1', '1'] by {
        assert(output_line(out, r).take(3) =~= output_line(out, r).take(16).take(3));
    }
}

/// The output line of every A-instruction starts with `0`.
pub proof fn lemma_a_prefix(src: Seq<char>, st: Symbols)
    requires
        assemble(src, st).1 is Ok,
    ensures
        forall|r: int|
            0 <= r < instructions(src, st).len() && is_a_line(instructions(src, st)[r])
                ==> (#[trigger] output_line(assemble(src, st).1->Ok_0, r))[0] == '0',
{
    let out = assemble(src, st).1->Ok_0;
    lemma_pass2_shape(instructions(src, st), labels_bound(src, st));
    assert forall|r: int|
        0 <= r < instructions(src, st).len() && is_a_line(
            instructions(src, st)[r],
        ) implies (#[trigger] output_line(out, r))[0] == '0' by {
        assert(output_line(out, r).take(16)[0] == output_line(out, r)[0]);
    }
}

proof fn lemma_pass1_label(ls: Seq<Seq<char>>, st: Symbols, p: int)
    requires
        0 <= p < ls.len(),
        is_label_line(ls[p]),
        has_label(ls[p]),
        forall|q: int|
            p < q < ls.len() && is_label_line(ls[q]) && has_label(ls[q]) ==> label_name(
                #[trigger] ls[q],
            ) != label_name(ls[p]),
    ensures
        pass1(ls, st).0.map.contains_key(label_name(ls[p])),
        pass1(ls, st).0.map[label_name(ls[p])] == real_lines(ls.take(p)).len(),
    decreases ls.len(),
{
    lemma_pass1_real(ls.drop_last(), st);
    if p == ls.len() - 1 {
        assert(ls.take(p) =~= ls.drop_last());
    } else {
        assert(ls.drop_last()[p] == ls[p]);
        assert forall|q: int|
            p < q < ls.drop_last().len() && is_label_line(ls.drop_last()[q]) && has_label(
                ls.drop_last()[q],
            ) implies label_name(#[trigger] ls.drop_last()[q]) != label_name(ls.drop_last()[p]) by {
            assert(ls.drop_last()[q] == ls[q]);
        }
        lemma_pass1_label(ls.drop_last(), st, p);
        assert(ls.drop_last().take(p) =~= ls.take(p));
        assert(ls[ls.len() - 1] == ls.last());
    }
}

proof fn lemma_pass1_cursor(ls: Seq<Seq<char>>, st: Symbols)
    ensures
        pass1(ls, st).0.next == st.next,
    decreases ls.len(),
{
    if ls.len() > 0 {
        lemma_pass1_cursor(ls.drop_last(), st);
    }
}

/// A label binds the address of the first instruction after it, which is
/// the number of instructions before it, unless a later label of the same
/// name rebinds it. Loading the label's name then gives the same word as
/// loading that address as a number.
pub proof fn lemma_label_address(src: Seq<char>, st: Symbols, p: int, k: Seq<char>)
    requires
        0 <= p < canonical_lines(src).len(),
        is_label_line(canonical_lines(src)[p]),
        has_label(canonical_lines(src)[p]),
        forall|q: int|
            p < q < canonical_lines(src).len() && is_label_line(canonical_lines(src)[q])
                && has_label(canonical_lines(src)[q]) ==> label_name(
                #[trigger] canonical_lines(src)[q],
            ) != label_name(canonical_lines(src)[p]),
        k.len() > 0,
        all_digits(k),
        digits_value(k) == real_lines(canonical_lines(src).take(p)).len(),
    ensures
        labels_bound(src, st).map.contains_key(label_name(canonical_lines(src)[p])),
        labels_bound(src, st).map[label_name(canonical_lines(src)[p])] == real_lines(
            canonical_lines(src).take(p),
        ).len(),
        ({
            let name = label_name(canonical_lines(src)[p]);
            name.len() > 0 && !is_digit(name[0]) ==> encode(
                seq!['@'] + name,
                labels_bound(src, st),
            ) == encode(seq!['@'] + k, labels_bound(src, st))
        }),
{
    let ls = canonical_lines(src);
    let name = label_name(ls[p]);
    lemma_pass1_label(ls, st, p);
    assert((seq!['@'] + name).drop_first() =~= name);
    assert((seq!['@'] + k).drop_first() =~= k);
}

/// The table `s2` keeps every binding of `s1`, and its cursor is no lower.
pub open spec fn extends(s1: Symbols, s2: Symbols) -> bool {
    &&& s1.next <= s2.next
    &&& forall|key: Seq<char>|
        #[trigger] s1.map.contains_key(key) ==> s2.map.contains_key(key) && s2.map[key]
            == s1.map[key]
}

/// Every name of `s` that `b` lacks is a variable that an A-instruction of
/// `ls` names, with an address from `b`'s cursor up to `s`'s.
pub open spec fn fresh_from(b: Symbols, s: Symbols, ls: Seq<Seq<char>>) -> bool {
    forall|key: Seq<char>|
        #[trigger] s.map.contains_key(key) && !b.map.contains_key(key) ==> b.next <= s.map[key]
            < s.next && exists|q: int| 0 <= q < ls.len() && ls[q] == seq!['@'] + key
}

proof fn lemma_encode_extends(line: Seq<char>, s: Symbols)
    requires
        encode(line, s).1 is Ok,
    ensures
        extends(s, encode(line, s).0),
        forall|key: Seq<char>|
            #[trigger] encode(line, s).0.map.contains_key(key) && !s.map.contains_key(key) ==> line
                == seq!['@'] + key && encode(line, s).0.map[key] == s.next && s.next < encode(
                line,
                s,
            ).0.next,
{
    if is_a_line(line) {
        assert(seq!['@'] + line.drop_first() =~= line);
    }
}

proof fn lemma_pass2_grows(ls: Seq<Seq<char>>, b: Symbols)
    requires
        pass2(ls, b).1 is Ok,
    ensures
        extends(b, pass2(ls, b).0),
        fresh_from(b, pass2(ls, b).0, ls),
    decreases ls.len(),
{
    if ls.len() > 0 {
        let prev = ls.drop_last();
        lemma_pass2_grows(prev, b);
        let s1 = pass2(prev, b).0;
        let s2 = pass2(ls, b).0;
        lemma_encode_extends(ls.last(), s1);
        assert forall|key: Seq<char>|
            #[trigger] s2.map.contains_key(key) && !b.map.contains_key(key) implies b.next
            <= s2.map[key] < s2.next && exists|q: int|
            0 <= q < ls.len() && ls[q] == seq!['@'] + key by {
            if s1.map.contains_key(key) {
                let q = choose|q: int| 0 <= q < prev.len() && prev[q] == seq!['@'] + key;
                assert(ls[q] == prev[q]);
            } else {
                assert(ls[ls.len() - 1] == seq!['@'] + key);
            }
        }
    }
}

proof fn lemma_pass2_prefix_ok(ls: Seq<Seq<char>>, b: Symbols, k: int)
    requires
        0 <= k <= ls.len(),
        pass2(ls, b).1 is Ok,
    ensures
        pass2(ls.take(k), b).1 is Ok,
{
    if pass2(ls.take(k), b).1 is Err {
        lemma_pass2_stuck(ls, b, k);
    }
}

proof fn lemma_pass2_extends(ls: Seq<Seq<char>>, b: Symbols, k: int)
    requires
        0 <= k <= ls.len(),
        pass2(ls, b).1 is Ok,
    ensures
        extends(pass2(ls.take(k), b).0, pass2(ls, b).0),
    decreases ls.len(),
{
    if k == ls.len() {
        assert(ls.take(k) =~= ls);
    } else {
        let prev = ls.drop_last();
        lemma_pass2_prefix_ok(ls, b, ls.len() - 1);
        assert(ls.take(ls.len() - 1) =~= prev);
        lemma_pass2_extends(prev, b, k);
        assert(prev.take(k) =~= ls.take(k));
        lemma_encode_extends(ls.last(), pass2(prev, b).0);
    }
}

/// Of two variables, the one named first by the program gets the lower
/// address, and both lie at or above the first variable address.
pub proof fn lemma_variables_in_order(
    src: Seq<char>,
    st: Symbols,
    i: int,
    j: int,
    v1: Seq<char>,
    v2: Seq<char>,
)
    requires
        FIRST_VARIABLE <= st.next,
        assemble(src, st).1 is Ok,
        0 <= i < j < instructions(src, st).len(),
        instructions(src, st)[i] == seq!['@'] + v1,
        instructions(src, st)[j] == seq!['@'] + v2,
        forall|q: int| 0 <= q < j ==> #[trigger] instructions(src, st)[q] != seq!['@'] + v2,
        v1.len() > 0 && !is_digit(v1[0]),
        v2.len() > 0 && !is_digit(v2[0]),
        !labels_bound(src, st).map.contains_key(v1),
        !labels_bound(src, st).map.contains_key(v2),
    ensures
        assemble(src, st).0.map.contains_key(v1),
        assemble(src, st).0.map.contains_key(v2),
        FIRST_VARIABLE <= assemble(src, st).0.map[v1] < assemble(src, st).0.map[v2],
{
    let ins = instructions(src, st);
    let b = labels_bound(src, st);
    lemma_pass1_cursor(canonical_lines(src), st);
    let si1 = pass2(ins.take(i + 1), b).0;
    let sj = pass2(ins.take(j), b).0;
    let sj1 = pass2(ins.take(j + 1), b).0;
    let fin = pass2(ins, b).0;
    lemma_pass2_prefix_ok(ins, b, i + 1);
    lemma_pass2_prefix_ok(ins, b, j);
    lemma_pass2_prefix_ok(ins, b, j + 1);
    // after the first mention of v1
    let pi = ins.take(i + 1);
    assert(pi.drop_last() =~= ins.take(i));
    assert(pi.last() == seq!['@'] + v1);
    assert((seq!['@'] + v1).drop_first() =~= v1);
    assert(si1.map.contains_key(v1));
    lemma_pass2_grows(pi, b);
    assert(b.next <= si1.map[v1] < si1.next);
    // up to the first mention of v2
    lemma_pass2_extends(ins.take(j), b, i + 1);
    assert(ins.take(j).take(i + 1) =~= pi);
    lemma_pass2_grows(ins.take(j), b);
    if sj.map.contains_key(v2) {
        let q = choose|q: int| 0 <= q < ins.take(j).len() && ins.take(j)[q] == seq!['@'] + v2;
        assert(ins[q] == ins.take(j)[q]);
        assert(false);
    }
    let pj = ins.take(j + 1);
    assert(pj.drop_last() =~= ins.take(j));
    assert(pj.last() == seq!['@'] + v2);
    assert((seq!['@'] + v2).drop_first() =~= v2);
    assert(sj1.map[v2] == sj.next);
    assert(sj1.map[v1] == sj.map[v1]);
    lemma_pass2_extends(ins, b, j + 1);
    assert(sj1.map.contains_key(v1));
    assert(sj1.map.contains_key(v2));
    assert(fin.map[v1] == sj1.map[v1]);
    assert(fin.map[v2] == sj1.map[v2]);
}

} // verus!
