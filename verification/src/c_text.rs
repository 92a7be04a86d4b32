use vstd::prelude::*;
use vstd::string::StringExecFns;

verus! {

/// One line of the C code that the compiler emits. The generated program
/// keeps the tape pointer in `c` and an output buffer in `o`.
#[derive(Debug, PartialEq, Eq)]
pub enum CStmt {
    /// `c[offset] += val;` (or `-=` with the magnitude when `val` is not positive).
    AddConst { offset: i32, val: i32 },
    /// `c[offset] = byte;`
    SetConst { offset: i32, byte: u8 },
    /// `c[dst] = c[src] * mul;`
    MulInto { dst: i32, src: i32, mul: i32 },
    /// `c[offset] = getchar();`
    ReadIn { offset: i32 },
    /// `o[slot] = c[offset];`
    StoreOut { slot: usize, offset: i32 },
    /// `print_now(o, count);`
    Flush { count: usize },
    /// `c += delta;`, or `c -= |delta|;` when `delta` is negative.
    MoveHead { delta: i32 },
    /// `c[offset] += byte;`
    AddByte { offset: i32, byte: u8 },
    /// `c[offset] -= byte;`
    SubByte { offset: i32, byte: u8 },
    /// `c = c + delta;`, or `c = c - |delta|;` when `delta` is not positive.
    ShiftHead { delta: i32 },
    /// `while (*c) {`
    WhileOpen,
    /// `}`
    WhileClose,
}

/// The character of a decimal digit.
pub open spec fn digit_char(d: nat) -> char {
    (48 + d) as char
}

/// Decimal digits of a natural number, most significant first.
pub open spec fn nat_text(n: nat) -> Seq<char>
    decreases n,
{
    if n < 10 {
        seq![digit_char(n)]
    } else {
        nat_text(n / 10).push(digit_char(n % 10))
    }
}

/// Decimal text of an integer, with a leading `-` when it is negative.
pub open spec fn int_text(i: int) -> Seq<char> {
    if i < 0 {
        seq!['-'] + nat_text((-i) as nat)
    } else {
        nat_text(i as nat)
    }
}

/// The value of a decimal digit character, or `None` for any other
/// character.
pub open spec fn digit_value(c: char) -> Option<int> {
    if c == '0' {
        Some(0)
    } else if c == '1' {
        Some(1)
    } else if c == '2' {
        Some(2)
    } else if c == '3' {
        Some(3)
    } else if c == '4' {
        Some(4)
    } else if c == '5' {
        Some(5)
    } else if c == '6' {
        Some(6)
    } else if c == '7' {
        Some(7)
    } else if c == '8' {
        Some(8)
    } else if c == '9' {
        Some(9)
    } else {
        None
    }
}

/// Whether every character of `s` is a decimal digit.
pub open spec fn all_digits(s: Seq<char>) -> bool {
    forall|k: int| 0 <= k < s.len() ==> (#[trigger] digit_value(s[k])) is Some
}

/// The number that a string of decimal digits spells, most significant
/// digit first.
pub open spec fn decimal_value(s: Seq<char>) -> int
    decreases s.len(),
{
    if s.len() == 0 {
        0
    } else {
        decimal_value(s.drop_last()) * 10 + digit_value(s.last()).unwrap_or(0)
    }
}

/// The text of a natural number is its decimal numeral: one or more digits,
/// without a leading zero unless the number is zero, that spell the number.
pub proof fn lemma_nat_text_is_numeral(n: nat)
    ensures
        nat_text(n).len() >= 1,
        all_digits(nat_text(n)),
        decimal_value(nat_text(n)) == n,
        nat_text(n).len() > 1 ==> nat_text(n)[0] != '0',
        n < 10 <==> nat_text(n).len() == 1,
    decreases n,
{
    if n < 10 {
        assert(seq![digit_char(n)].drop_last() == Seq::<char>::empty());
        assert(digit_value(digit_char(n)) == Some(n as int));
        assert(seq![digit_char(n)].last() == digit_char(n));
        assert(decimal_value(Seq::<char>::empty()) == 0);
    } else {
        lemma_nat_text_is_numeral(n / 10);
        let p = nat_text(n / 10);
        let d = digit_char(n % 10);
        assert(digit_value(d) == Some((n % 10) as int));
        assert(p.push(d).drop_last() == p);
        assert(p.push(d).last() == d);
        assert(p.push(d)[0] == p[0]);
        assert(decimal_value(p.push(d)) == decimal_value(p) * 10 + (n % 10) as int);
        vstd::arithmetic::div_mod::lemma_fundamental_div_mod(n as int, 10);
        assert forall|k: int| 0 <= k < p.push(d).len() implies (#[trigger] digit_value(p.push(d)[k])) is Some by {
            if k < p.len() {
                assert(p.push(d)[k] == p[k]);
            }
        }
        if p.len() == 1 {
            assert(n / 10 >= 1);
            assert(p[0] == digit_char(n / 10));
            assert(digit_value(p[0]) == Some((n / 10) as int));
        }
    }
}

/// The text of an integer is a minus sign followed by the numeral of its
/// magnitude when it is negative, and the numeral of the integer otherwise.
pub proof fn lemma_int_text_is_numeral(i: int)
    ensures
        i < 0 ==> int_text(i)[0] == '-' && int_text(i).skip(1) == nat_text((-i) as nat),
        i >= 0 ==> int_text(i) == nat_text(i as nat),
        decimal_value(nat_text(magnitude(i) as nat)) == magnitude(i),
        all_digits(nat_text(magnitude(i) as nat)),
{
    lemma_nat_text_is_numeral(magnitude(i) as nat);
    if i < 0 {
        assert((seq!['-'] + nat_text((-i) as nat)).skip(1) == nat_text((-i) as nat));
    }
}

/// Magnitude of an integer.
pub open spec fn magnitude(i: int) -> int {
    if i < 0 {
        -i
    } else {
        i
    }
}

/// The text of one C statement, newline included.
pub open spec fn render(s: CStmt) -> Seq<char> {
    match s {
        CStmt::AddConst { offset, val } => "c["@ + int_text(offset as int) + (if val > 0 {
            "] += "@
        } else {
            "] -= "@
        }) + int_text(magnitude(val as int)) + ";\n"@,
        CStmt::SetConst { offset, byte } => "c["@ + int_text(offset as int) + "] = "@ + int_text(
            byte as int,
        ) + ";\n"@,
        CStmt::MulInto { dst, src, mul } => "c["@ + int_text(dst as int) + "] = c["@ + int_text(
            src as int,
        ) + "] * "@ + int_text(mul as int) + ";\n"@,
        CStmt::ReadIn { offset } => "c["@ + int_text(offset as int) + "] = getchar();\n"@,
        CStmt::StoreOut { slot, offset } => "o["@ + int_text(slot as int) + "] = c["@ + int_text(
            offset as int,
        ) + "];\n"@,
        CStmt::Flush { count } => "print_now(o, "@ + int_text(count as int) + ");\n"@,
        CStmt::MoveHead { delta } => (if delta > 0 {
            "c += "@
        } else {
            "c -= "@
        }) + int_text(magnitude(delta as int)) + ";\n"@,
        CStmt::AddByte { offset, byte } => "c["@ + int_text(offset as int) + "] += "@ + int_text(
            byte as int,
        ) + ";\n"@,
        CStmt::SubByte { offset, byte } => "c["@ + int_text(offset as int) + "] -= "@ + int_text(
            byte as int,
        ) + ";\n"@,
        CStmt::ShiftHead { delta } => (if delta > 0 {
            "c = c + "@
        } else {
            "c = c - "@
        }) + int_text(magnitude(delta as int)) + ";\n"@,
        CStmt::WhileOpen => "while (*c) {\n"@,
        CStmt::WhileClose => "}\n"@,
    }
}

/// The text of a sequence of C statements.
pub open spec fn c_text(stmts: Seq<CStmt>) -> Seq<char>
    decreases stmts.len(),
{
    if stmts.len() == 0 {
        Seq::empty()
    } else {
        c_text(stmts.drop_last()) + render(stmts.last())
    }
}

/// The text of two statement sequences one after the other is the one text
/// followed by the other.
pub proof fn lemma_c_text_concat(a: Seq<CStmt>, b: Seq<CStmt>)
    ensures
        c_text(a + b) == c_text(a) + c_text(b),
    decreases b.len(),
{
    if b.len() == 0 {
        assert(a + b == a);
    } else {
        lemma_c_text_concat(a, b.drop_last());
        assert((a + b).drop_last() == a + b.drop_last());
    }
}

/// The text of a sequence with one more statement.
pub proof fn lemma_c_text_push(a: Seq<CStmt>, x: CStmt)
    ensures
        c_text(a.push(x)) == c_text(a) + render(x),
{
    assert(a.push(x).drop_last() == a);
}

/// Appends the decimal digit `d`.
fn push_digit(s: &mut String, d: u8)
    requires
        d < 10,
    ensures
        final(s)@ == old(s)@.push(digit_char(d as nat)),
{
    let ghost s0 = s@;
    if d == 0 {
        s.append("0");
        proof { reveal_strlit("0"); }
    } else if d == 1 {
        s.append("1");
        proof { reveal_strlit("1"); }
    } else if d == 2 {
        s.append("2");
        proof { reveal_strlit("2"); }
    } else if d == 3 {
        s.append("3");
        proof { reveal_strlit("3"); }
    } else if d == 4 {
        s.append("4");
        proof { reveal_strlit("4"); }
    } else if d == 5 {
        s.append("5");
        proof { reveal_strlit("5"); }
    } else if d == 6 {
        s.append("6");
        proof { reveal_strlit("6"); }
    } else if d == 7 {
        s.append("7");
        proof { reveal_strlit("7"); }
    } else if d == 8 {
        s.append("8");
        proof { reveal_strlit("8"); }
    } else {
        s.append("9");
        proof { reveal_strlit("9"); }
    }
    assert(s@ =~= s0.push(digit_char(d as nat)));
}

/// Appends the decimal digits of `n`.
fn push_nat_text(s: &mut String, n: u64)
    ensures
        final(s)@ == old(s)@ + nat_text(n as nat),
    decreases n,
{
    let ghost s0 = s@;
    if n >= 10 {
        push_nat_text(s, n / 10);
    }
    let d: u8 = (n % 10) as u8;
    push_digit(s, d);
    if n < 10 {
        assert(s@ == s0 + seq![digit_char(n as nat)]);
    } else {
        assert(s@ == s0 + nat_text((n / 10) as nat).push(digit_char((n % 10) as nat)));
    }
}

/// Appends the decimal text of `v`.
fn push_int_text(s: &mut String, v: i64)
    requires
        v > i64::MIN,
    ensures
        final(s)@ == old(s)@ + int_text(v as int),
{
    if v < 0 {
        s.append("-");
        proof {
            reveal_strlit("-");
        }
        push_nat_text(s, (-v) as u64);
    } else {
        push_nat_text(s, v as u64);
    }
}

/// Appends the text of one C statement.
pub fn emit(s: &mut String, stmt: &CStmt)
    ensures
        final(s)@ == old(s)@ + render(*stmt),
{
    let ghost s0 = s@;
    match stmt {
        CStmt::AddConst { offset, val } => {
            s.append("c[");
            push_int_text(s, *offset as i64);
            if *val > 0 {
                s.append("] += ");
            } else {
                s.append("] -= ");
            }
            let mag: i64 = if *val < 0 { -(*val as i64) } else { *val as i64 };
            push_int_text(s, mag);
            s.append(";\n");
        },
        CStmt::SetConst { offset, byte } => {
            s.append("c[");
            push_int_text(s, *offset as i64);
            s.append("] = ");
            push_int_text(s, *byte as i64);
            s.append(";\n");
        },
        CStmt::MulInto { dst, src, mul } => {
            s.append("c[");
            push_int_text(s, *dst as i64);
            s.append("] = c[");
            push_int_text(s, *src as i64);
            s.append("] * ");
            push_int_text(s, *mul as i64);
            s.append(";\n");
        },
        CStmt::ReadIn { offset } => {
            s.append("c[");
            push_int_text(s, *offset as i64);
            s.append("] = getchar();\n");
        },
        CStmt::StoreOut { slot, offset } => {
            s.append("o[");
            push_nat_text(s, *slot as u64);
            s.append("] = c[");
            push_int_text(s, *offset as i64);
            s.append("];\n");
        },
        CStmt::Flush { count } => {
            s.append("print_now(o, ");
            push_nat_text(s, *count as u64);
            s.append(");\n");
        },
        CStmt::MoveHead { delta } => {
            if *delta > 0 {
                s.append("c += ");
            } else {
                s.append("c -= ");
            }
            let mag: i64 = if *delta < 0 { -(*delta as i64) } else { *delta as i64 };
            push_int_text(s, mag);
            s.append(";\n");
        },
        CStmt::AddByte { offset, byte } => {
            s.append("c[");
            push_int_text(s, *offset as i64);
            s.append("] += ");
            push_int_text(s, *byte as i64);
            s.append(";\n");
        },
        CStmt::SubByte { offset, byte } => {
            s.append("c[");
            push_int_text(s, *offset as i64);
            s.append("] -= ");
            push_int_text(s, *byte as i64);
            s.append(";\n");
        },
        CStmt::ShiftHead { delta } => {
            if *delta > 0 {
                s.append("c = c + ");
            } else {
                s.append("c = c - ");
            }
            let mag: i64 = if *delta < 0 { -(*delta as i64) } else { *delta as i64 };
            push_int_text(s, mag);
            s.append(";\n");
        },
        CStmt::WhileOpen => {
            s.append("while (*c) {\n");
        },
        CStmt::WhileClose => {
            s.append("}\n");
        },
    }
    assert(s@ =~= s0 + render(*stmt));
}

} // verus!
