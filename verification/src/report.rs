//! The reporter: the contractual output format of a completed scan.
//!
//! Each discovered register becomes one line, `<address as 8 hex digits>:
//! <value as 16 hex digits>`, and the lines follow the result map's entry
//! order — ascending by address — whatever order the scan discovered the
//! registers in.

use crate::results::{lemma_sorted_entries_unique, ResultMap};
use vstd::prelude::*;

verus! {

/// The (lower-case) character spelling one hex digit.
pub open spec fn hex_digit_char(d: int) -> char
    recommends
        0 <= d < 16,
{
    if d == 0 {
        '0'
    } else if d == 1 {
        '1'
    } else if d == 2 {
        '2'
    } else if d == 3 {
        '3'
    } else if d == 4 {
        '4'
    } else if d == 5 {
        '5'
    } else if d == 6 {
        '6'
    } else if d == 7 {
        '7'
    } else if d == 8 {
        '8'
    } else if d == 9 {
        '9'
    } else if d == 10 {
        'a'
    } else if d == 11 {
        'b'
    } else if d == 12 {
        'c'
    } else if d == 13 {
        'd'
    } else if d == 14 {
        'e'
    } else {
        'f'
    }
}

/// The `width` low hex digits of `v`, most significant first (zero-padded).
pub open spec fn hex_digits(v: int, width: nat) -> Seq<char>
    decreases width,
{
    if width == 0 {
        Seq::empty()
    } else {
        hex_digits(v / 16, (width - 1) as nat).push(hex_digit_char(v % 16))
    }
}

fn push_hex_digit(s: &mut String, d: u64)
    requires
        d < 16,
    ensures
        final(s)@ == old(s)@.push(hex_digit_char(d as int)),
{
    proof {
        reveal_strlit("0");
        reveal_strlit("1");
        reveal_strlit("2");
        reveal_strlit("3");
        reveal_strlit("4");
        reveal_strlit("5");
        reveal_strlit("6");
        reveal_strlit("7");
        reveal_strlit("8");
        reveal_strlit("9");
        reveal_strlit("a");
        reveal_strlit("b");
        reveal_strlit("c");
        reveal_strlit("d");
        reveal_strlit("e");
        reveal_strlit("f");
    }
    if d == 0 {
        s.append("0");
    } else if d == 1 {
        s.append("1");
    } else if d == 2 {
        s.append("2");
    } else if d == 3 {
        s.append("3");
    } else if d == 4 {
        s.append("4");
    } else if d == 5 {
        s.append("5");
    } else if d == 6 {
        s.append("6");
    } else if d == 7 {
        s.append("7");
    } else if d == 8 {
        s.append("8");
    } else if d == 9 {
        s.append("9");
    } else if d == 10 {
        s.append("a");
    } else if d == 11 {
        s.append("b");
    } else if d == 12 {
        s.append("c");
    } else if d == 13 {
        s.append("d");
    } else if d == 14 {
        s.append("e");
    } else {
        s.append("f");
    }
    proof {
        assert(s@ =~= old(s)@.push(hex_digit_char(d as int)));
    }
}

/// Append the `width` low hex digits of `v`, most significant first.
fn push_hex(s: &mut String, v: u64, width: usize)
    ensures
        final(s)@ == old(s)@ + hex_digits(v as int, width as nat),
    decreases width,
{
    if width == 0 {
        proof {
            assert(s@ =~= old(s)@ + hex_digits(v as int, 0));
        }
    } else {
        push_hex(s, v / 16, width - 1);
        push_hex_digit(s, v % 16);
        proof {
            assert(s@ =~= old(s)@ + hex_digits(v as int, width as nat));
        }
    }
}

/// The characters of one report line: the address as eight hex digits, a
/// colon and a space, the value as sixteen hex digits.
pub open spec fn line_chars(addr: u32, value: u64) -> Seq<char> {
    hex_digits(addr as int, 8) + seq![':', ' '] + hex_digits(value as int, 16)
}

/// Format one discovered register as its report line.
pub fn format_entry(addr: u32, value: u64) -> (line: String)
    ensures
        line@ == line_chars(addr, value),
{
    let mut s = String::new();
    push_hex(&mut s, addr as u64, 8);
    proof {
        reveal_strlit(": ");
    }
    s.append(": ");
    push_hex(&mut s, value, 16);
    proof {
        assert(s@ =~= line_chars(addr, value));
    }
    s
}

/// Format the whole report: one line per entry, in the map's own
/// (ascending-address) entry order.
pub fn format_report(m: &ResultMap) -> (lines: Vec<String>)
    ensures
        lines@.len() == m.entry_seq().len(),
        forall|i: int|
            0 <= i < lines@.len() ==> (#[trigger] lines@[i])@ == line_chars(
                m.entry_seq()[i].0,
                m.entry_seq()[i].1,
            ),
{
    let n = m.len();
    let mut lines: Vec<String> = Vec::new();
    let mut i: usize = 0;
    while i < n
        invariant
            n == m.entry_seq().len(),
            0 <= i <= n,
            lines@.len() == i,
            forall|k: int|
                0 <= k < i ==> (#[trigger] lines@[k])@ == line_chars(
                    m.entry_seq()[k].0,
                    m.entry_seq()[k].1,
                ),
        decreases n - i,
    {
        let e = m.entry_at(i);
        lines.push(format_entry(e.0, e.1));
        i += 1;
    }
    lines
}

/// The report's order: in a well-formed result map the entries — and so
/// the emitted lines — carry strictly ascending addresses, whatever order
/// the scan discovered them in.
pub proof fn lemma_report_ascending(m: &ResultMap)
    requires
        m.wf(),
    ensures
        forall|i: int, j: int|
            0 <= i < j < m.entry_seq().len() ==> (#[trigger] m.entry_seq()[i]).0
                < (#[trigger] m.entry_seq()[j]).0,
{
}

/// Determinism of the report: two well-formed result maps that denote the
/// same address-to-value map hold identical entries, so they format to
/// byte-identical reports — the scan's discovery order leaves no trace in
/// the output.
pub proof fn lemma_report_determined_by_map(m1: &ResultMap, m2: &ResultMap)
    requires
        m1.wf(),
        m2.wf(),
        m1.as_map() == m2.as_map(),
    ensures
        m1.entry_seq() == m2.entry_seq(),
{
    lemma_sorted_entries_unique(m1.entry_seq(), m2.entry_seq());
}

} // verus!
