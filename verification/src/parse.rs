//! Parsing of instruction lines.
//!
//! The two accepted forms, each a whole line, are
//! `ADD id=<uint> left=[<uint>,<char>] right=[<uint>,<char>]` and
//! `SWAP <uint>`, where the numbers fit a 16-bit range and each `<char>`
//! is a single printable character. Anything else parses to `None`.

use vstd::prelude::*;
use crate::replay::Instruction;

verus! {

/// Decimal digit.
pub open spec fn is_digit(c: char) -> bool {
    '0' <= c && c <= '9'
}

/// The numeric value of one digit character.
pub open spec fn digit_val(c: char) -> int {
    c as int - 48
}

/// A single printable character, the space included.
pub open spec fn printable(c: char) -> bool {
    ' ' <= c && c <= '~'
}

/// Index of the first non-digit at or after `pos`.
pub open spec fn digit_run_end(s: Seq<char>, pos: int) -> int
    decreases s.len() - pos,
{
    if pos < 0 || pos >= s.len() {
        pos
    } else if is_digit(s[pos]) {
        digit_run_end(s, pos + 1)
    } else {
        pos
    }
}

/// Value of a digit string, most significant digit first.
pub open spec fn digits_value(s: Seq<char>) -> int
    decreases s.len(),
{
    if s.len() == 0 {
        0
    } else {
        digits_value(s.drop_last()) * 10 + digit_val(s.last())
    }
}

/// Parse an unsigned decimal number at `pos`: at least one digit, whole
/// digit run valued at most `max`. Yields the value and the position
/// after the run.
pub open spec fn spec_parse_num(s: Seq<char>, pos: int, max: int) -> Option<(int, int)> {
    let e = digit_run_end(s, pos);
    if e == pos {
        None
    } else {
        let v = digits_value(s.subrange(pos, e));
        if v > max {
            None
        } else {
            Some((v, e))
        }
    }
}

/// The literal `lit` occurs in `s` at `pos`.
pub open spec fn lit_at(s: Seq<char>, pos: int, lit: Seq<char>) -> bool {
    0 <= pos && pos + lit.len() <= s.len() && s.subrange(pos, pos + lit.len()) == lit
}

/// The digit run: everything before its end is a digit; its end is the
/// line's end or a non-digit.
pub proof fn lemma_run_end_props(s: Seq<char>, pos: int)
    requires
        0 <= pos <= s.len(),
    ensures
        pos <= digit_run_end(s, pos) <= s.len(),
        forall|k: int| pos <= k < digit_run_end(s, pos) ==> is_digit(#[trigger] s[k]),
        digit_run_end(s, pos) < s.len() ==> !is_digit(s[digit_run_end(s, pos)]),
    decreases s.len() - pos,
{
    if pos < s.len() && is_digit(s[pos]) {
        lemma_run_end_props(s, pos + 1);
    }
}

/// A digit string's value is never negative.
pub proof fn lemma_digits_value_nonneg(s: Seq<char>)
    requires
        forall|k: int| 0 <= k < s.len() ==> is_digit(#[trigger] s[k]),
    ensures
        digits_value(s) >= 0,
    decreases s.len(),
{
    if s.len() > 0 {
        assert(forall|k: int|
            0 <= k < s.drop_last().len() ==> is_digit(#[trigger] s.drop_last()[k]));
        lemma_digits_value_nonneg(s.drop_last());
    }
}

/// Extending a digit string never shrinks its value.
pub proof fn lemma_digits_value_mono(s: Seq<char>, pos: int, j: int, e: int)
    requires
        0 <= pos <= j <= e <= s.len(),
        forall|k: int| pos <= k < e ==> is_digit(#[trigger] s[k]),
    ensures
        digits_value(s.subrange(pos, e)) >= digits_value(s.subrange(pos, j)),
    decreases e - j,
{
    assert(forall|k: int|
        0 <= k < s.subrange(pos, j).len() ==> is_digit(#[trigger] s.subrange(pos, j)[k]));
    lemma_digits_value_nonneg(s.subrange(pos, j));
    if j < e {
        assert(s.subrange(pos, j + 1).drop_last() =~= s.subrange(pos, j));
        assert(digits_value(s.subrange(pos, j + 1)) == digits_value(s.subrange(pos, j)) * 10
            + digit_val(s[j]));
        lemma_digits_value_mono(s, pos, j + 1, e);
    }
}

/// Parse an unsigned decimal number at `pos`, refusing a run whose value
/// exceeds `max`.
pub fn parse_num(s: &str, pos: usize, max: u64) -> (r: Option<(u64, usize)>)
    requires
        pos <= s@.len(),
        max <= 0xFFFF_FFFF,
    ensures
        match r {
            Some(p) => spec_parse_num(s@, pos as int, max as int) == Some((p.0 as int, p.1 as int))
                && p.1 <= s@.len(),
            None => spec_parse_num(s@, pos as int, max as int) is None,
        },
{
    let n = s.unicode_len();
    let mut i: usize = pos;
    let mut v: u64 = 0;
    proof {
        assert(s@.subrange(pos as int, pos as int) =~= Seq::<char>::empty());
    }
    while i < n && s.get_char(i) >= '0' && s.get_char(i) <= '9'
        invariant
            pos <= i <= n,
            n == s@.len(),
            max <= 0xFFFF_FFFF,
            v <= max,
            digit_run_end(s@, pos as int) == digit_run_end(s@, i as int),
            forall|k: int| pos <= k < i ==> is_digit(#[trigger] s@[k]),
            v == digits_value(s@.subrange(pos as int, i as int)),
        decreases n - i,
    {
        let c = s.get_char(i);
        let d: u64 = (c as u32 as u64) - 48;
        proof {
            assert(s@.subrange(pos as int, i + 1).drop_last() =~= s@.subrange(
                pos as int,
                i as int,
            ));
            assert(digits_value(s@.subrange(pos as int, i + 1)) == v * 10 + digit_val(c));
        }
        let nv: u64 = v * 10 + d;
        if nv > max {
            proof {
                lemma_run_end_props(s@, i + 1);
                let e = digit_run_end(s@, pos as int);
                assert(e == digit_run_end(s@, i + 1));
                assert(forall|k: int| pos <= k < e ==> is_digit(#[trigger] s@[k]));
                lemma_digits_value_mono(s@, pos as int, i + 1, e);
            }
            return None;
        }
        v = nv;
        i += 1;
    }
    proof {
        assert(digit_run_end(s@, i as int) == i as int);
    }
    if i == pos {
        None
    } else {
        Some((v, i))
    }
}

/// Check that the literal occurs at `pos`; yield the position after it.
pub fn expect_lit(s: &str, pos: usize, lit: &str) -> (r: Option<usize>)
    requires
        pos <= s@.len(),
    ensures
        match r {
            Some(e) => lit_at(s@, pos as int, lit@) && e == pos + lit@.len() && e <= s@.len(),
            None => !lit_at(s@, pos as int, lit@),
        },
{
    let n = s.unicode_len();
    let m = lit.unicode_len();
    if m > n - pos {
        return None;
    }
    let mut j: usize = 0;
    while j < m
        invariant
            0 <= j <= m,
            m == lit@.len(),
            n == s@.len(),
            pos + m <= n,
            forall|k: int| 0 <= k < j ==> s@[pos + k] == lit@[k],
        decreases m - j,
    {
        if s.get_char(pos + j) != lit.get_char(j) {
            proof {
                if lit_at(s@, pos as int, lit@) {
                    assert(s@.subrange(pos as int, pos + m)[j as int] == lit@[j as int]);
                }
            }
            return None;
        }
        j += 1;
    }
    proof {
        assert(s@.subrange(pos as int, pos + m) =~= lit@);
    }
    Some(pos + m)
}

/// What a whole line parses to: an `Add`, a `Swap`, or nothing.
pub open spec fn spec_parse_instruction(s: Seq<char>) -> Option<Instruction> {
    if lit_at(s, 0, "ADD id="@) {
        match spec_parse_num(s, "ADD id="@.len() as int, 65535) {
            None => None,
            Some((id, p1)) => {
                if lit_at(s, p1, " left=["@) {
                    match spec_parse_num(s, p1 + " left=["@.len(), 65535) {
                        None => None,
                        Some((lrank, p2)) => {
                            if p2 + 2 <= s.len() && s[p2] == ',' && printable(s[p2 + 1]) && lit_at(
                                s,
                                p2 + 2,
                                "] right=["@,
                            ) {
                                match spec_parse_num(s, p2 + 2 + "] right=["@.len(), 65535) {
                                    None => None,
                                    Some((rrank, p3)) => {
                                        if p3 + 3 == s.len() && s[p3] == ',' && printable(
                                            s[p3 + 1],
                                        ) && s[p3 + 2] == ']' {
                                            Some(
                                                Instruction::Add {
                                                    id: id as u16,
                                                    left_rank: lrank as u16,
                                                    left_symbol: s[p2 + 1] as u8,
                                                    right_rank: rrank as u16,
                                                    right_symbol: s[p3 + 1] as u8,
                                                },
                                            )
                                        } else {
                                            None
                                        }
                                    },
                                }
                            } else {
                                None
                            }
                        },
                    }
                } else {
                    None
                }
            },
        }
    } else if lit_at(s, 0, "SWAP "@) {
        match spec_parse_num(s, "SWAP "@.len() as int, 65535) {
            None => None,
            Some((id, p)) => {
                if p == s.len() {
                    Some(Instruction::Swap { id: id as u16 })
                } else {
                    None
                }
            },
        }
    } else {
        None
    }
}

impl Instruction {
    /// Parse one instruction line. Yields `None` for anything that is not
    /// exactly one of the two accepted forms.
    pub fn parse(line: &str) -> (r: Option<Instruction>)
        ensures
            r == spec_parse_instruction(line@),
    {
        if let Some(p0) = expect_lit(line, 0, "ADD id=") {
            let id = match parse_num(line, p0, 65535) {
                None => {
                    return None;
                },
                Some(p) => p,
            };
            let p1 = match expect_lit(line, id.1, " left=[") {
                None => {
                    return None;
                },
                Some(e) => e,
            };
            let lrank = match parse_num(line, p1, 65535) {
                None => {
                    return None;
                },
                Some(p) => p,
            };
            let p2 = lrank.1;
            let n = line.unicode_len();
            if n - p2 < 2 {
                return None;
            }
            if line.get_char(p2) != ',' {
                return None;
            }
            let lsym = line.get_char(p2 + 1);
            if !(lsym >= ' ' && lsym <= '~') {
                return None;
            }
            let p3 = match expect_lit(line, p2 + 2, "] right=[") {
                None => {
                    return None;
                },
                Some(e) => e,
            };
            let rrank = match parse_num(line, p3, 65535) {
                None => {
                    return None;
                },
                Some(p) => p,
            };
            let p4 = rrank.1;
            if n - p4 != 3 {
                return None;
            }
            if line.get_char(p4) != ',' {
                return None;
            }
            let rsym = line.get_char(p4 + 1);
            if !(rsym >= ' ' && rsym <= '~') {
                return None;
            }
            if line.get_char(p4 + 2) != ']' {
                return None;
            }
            Some(
                Instruction::Add {
                    id: id.0 as u16,
                    left_rank: lrank.0 as u16,
                    left_symbol: lsym as u8,
                    right_rank: rrank.0 as u16,
                    right_symbol: rsym as u8,
                },
            )
        } else if let Some(p0) = expect_lit(line, 0, "SWAP ") {
            let id = match parse_num(line, p0, 65535) {
                None => {
                    return None;
                },
                Some(p) => p,
            };
            let n = line.unicode_len();
            if id.1 == n {
                Some(Instruction::Swap { id: id.0 as u16 })
            } else {
                None
            }
        } else {
            None
        }
    }
}

} // verus!
