//! The disassembly listing: renders a chunk as `=== {name} ===` followed by
//! one line per instruction — zero-padded offset, resolved source line,
//! mnemonic, and for `Constant` the operand and the resolved pool value —
//! and a closing marker.
//!
//! The listing is specified byte for byte: `disasm_text` assembles the
//! expected bytes, with only a constant's rendered value named rather than
//! written out (it is what `rustc_apfloat` prints for the value).

use crate::chunk::{expand_lines, Chunk, Opcode};
use crate::value::{float_text, render_value, Value};
use vstd::prelude::*;
use vstd::string::StringSliceAdditionalSpecFns;

verus! {

/// A sequence of bytes that ASCII covers.
pub open spec fn ascii_seq(s: Seq<u8>) -> bool {
    forall|i: int| 0 <= i < s.len() ==> s[i] < 128
}

/// The ASCII decimal digits of a non-negative number, most significant
/// first.
pub open spec fn dec_digits(n: int) -> Seq<u8>
    decreases n,
{
    if n < 10 {
        seq![(n + '0' as u8) as u8]
    } else {
        dec_digits(n / 10).push(((n % 10) + '0' as u8) as u8)
    }
}

/// Decimal digits are ASCII digits.
pub proof fn lemma_dec_digits_ascii(n: int)
    requires
        n >= 0,
    ensures
        forall|i: int|
            0 <= i < dec_digits(n).len() ==> '0' as u8 <= #[trigger] dec_digits(n)[i] <= '9' as u8,
    decreases n,
{
    if n >= 10 {
        lemma_dec_digits_ascii(n / 10);
        let prefix = dec_digits(n / 10);
        assert forall|i: int|
            0 <= i < dec_digits(n).len() implies '0' as u8 <= #[trigger] dec_digits(n)[i]
            <= '9' as u8 by {
            if i < prefix.len() {
                assert(dec_digits(n)[i] == prefix[i]);
            }
        }
    }
}

/// Append the decimal digits of `n`.
fn push_dec(out: &mut Vec<u8>, n: u64)
    ensures
        final(out)@ == old(out)@ + dec_digits(n as int),
    decreases n,
{
    if n >= 10 {
        push_dec(out, n / 10);
    }
    out.push((n % 10) as u8 + '0' as u8);
    proof {
        assert(out@ =~= old(out)@ + dec_digits(n as int));
    }
}

/// A number's digits, zero-padded on the left to at least four characters.
pub open spec fn pad4(s: Seq<u8>) -> Seq<u8> {
    if s.len() >= 4 {
        s
    } else {
        Seq::new((4 - s.len()) as nat, |k: int| '0' as u8) + s
    }
}

/// Append the decimal digits of `n`, zero-padded to width four.
fn push_dec_padded(out: &mut Vec<u8>, n: u64)
    ensures
        final(out)@ == old(out)@ + pad4(dec_digits(n as int)),
{
    let mut digits: Vec<u8> = Vec::new();
    push_dec(&mut digits, n);
    let dlen = digits.len();
    let mut k: usize = dlen;
    while k < 4
        invariant
            dlen <= k,
            dlen < 4 ==> k <= 4,
            dlen >= 4 ==> k == dlen,
            digits@ == dec_digits(n as int),
            dlen == digits@.len(),
            out@ == old(out)@ + Seq::new((k - dlen) as nat, |t: int| '0' as u8),
        decreases 4 - k,
    {
        out.push('0' as u8);
        k = k + 1;
        proof {
            assert(out@ =~= old(out)@ + Seq::new((k - dlen) as nat, |t: int| '0' as u8));
        }
    }
    proof {
        assert(digits@.take(0) =~= Seq::<u8>::empty());
        assert(out@ =~= old(out)@ + Seq::new(
            (if dlen >= 4 {
                0int
            } else {
                4 - dlen
            }) as nat,
            |t: int| '0' as u8,
        ) + digits@.take(0));
    }
    let mut i: usize = 0;
    while i < dlen
        invariant
            0 <= i <= dlen,
            dlen == digits@.len(),
            digits@ == dec_digits(n as int),
            out@ == old(out)@ + Seq::new(
                (if dlen >= 4 {
                    0int
                } else {
                    4 - dlen
                }) as nat,
                |t: int| '0' as u8,
            ) + digits@.take(i as int),
        decreases dlen - i,
    {
        out.push(digits[i]);
        i = i + 1;
        proof {
            assert(digits@.take(i as int) =~= digits@.take(i - 1).push(digits@[i - 1]));
            assert(out@ =~= old(out)@ + Seq::new(
                (if dlen >= 4 {
                    0int
                } else {
                    4 - dlen
                }) as nat,
                |t: int| '0' as u8,
            ) + digits@.take(i as int));
        }
    }
    proof {
        assert(digits@.take(dlen as int) =~= digits@);
        assert(out@ =~= old(out)@ + pad4(dec_digits(n as int)));
    }
}

/// Append a copy of the given bytes.
fn push_all(out: &mut Vec<u8>, src: &[u8])
    ensures
        final(out)@ == old(out)@ + src@,
{
    let n = src.len();
    let mut i: usize = 0;
    while i < n
        invariant
            0 <= i <= n == src@.len(),
            out@ == old(out)@ + src@.take(i as int),
        decreases n - i,
    {
        out.push(src[i]);
        i = i + 1;
        proof {
            assert(src@.take(i as int) =~= src@.take(i - 1).push(src@[i - 1]));
            assert(out@ =~= old(out)@ + src@.take(i as int));
        }
    }
    proof {
        assert(src@.take(n as int) =~= src@);
    }
}

/// Relies on `String::from_utf8_lossy`: bytes that are all ASCII decode to
/// exactly those characters.
#[verifier::external_body]
fn bytes_to_string(b: Vec<u8>) -> (r: String)
    ensures
        ascii_seq(b@) ==> r@ == b@.map_values(|c: u8| c as char),
{
    String::from_utf8_lossy(&b).into_owned()
}

/// An instruction's mnemonic, with its operand where it has one.
pub open spec fn mnemonic_text(op: Opcode) -> Seq<u8> {
    match op {
        Opcode::Return => seq!['R' as u8, 'E' as u8, 'T' as u8, 'U' as u8, 'R' as u8, 'N' as u8],
        Opcode::Negate => seq!['N' as u8, 'E' as u8, 'G' as u8, 'A' as u8, 'T' as u8, 'E' as u8],
        Opcode::Add => seq!['A' as u8, 'D' as u8, 'D' as u8],
        Opcode::Sub => seq!['S' as u8, 'U' as u8, 'B' as u8],
        Opcode::Mul => seq!['M' as u8, 'U' as u8, 'L' as u8],
        Opcode::Div => seq!['D' as u8, 'I' as u8, 'V' as u8],
        Opcode::Constant(i) => seq![
            'C' as u8, 'O' as u8, 'N' as u8, 'S' as u8, 'T' as u8, 'A' as u8, 'N' as u8,
            'T' as u8, ' ' as u8,
        ] + dec_digits(i as int),
        Opcode::Literal(n) => seq![
            'L' as u8, 'I' as u8, 'T' as u8, 'E' as u8, 'R' as u8, 'A' as u8, 'L' as u8,
            ' ' as u8,
        ] + dec_digits(n as int),
    }
}

/// A mnemonic is ASCII text.
pub proof fn lemma_mnemonic_ascii(op: Opcode)
    ensures
        ascii_seq(mnemonic_text(op)),
{
    match op {
        Opcode::Constant(i) => {
            lemma_dec_digits_ascii(i as int);
        },
        Opcode::Literal(n) => {
            lemma_dec_digits_ascii(n as int);
        },
        _ => {},
    }
}

/// Append an instruction's mnemonic.
fn push_mnemonic(out: &mut Vec<u8>, op: &Opcode)
    ensures
        final(out)@ == old(out)@ + mnemonic_text(*op),
{
    match op {
        Opcode::Return => {
            out.push('R' as u8);
            out.push('E' as u8);
            out.push('T' as u8);
            out.push('U' as u8);
            out.push('R' as u8);
            out.push('N' as u8);
        },
        Opcode::Negate => {
            out.push('N' as u8);
            out.push('E' as u8);
            out.push('G' as u8);
            out.push('A' as u8);
            out.push('T' as u8);
            out.push('E' as u8);
        },
        Opcode::Add => {
            out.push('A' as u8);
            out.push('D' as u8);
            out.push('D' as u8);
        },
        Opcode::Sub => {
            out.push('S' as u8);
            out.push('U' as u8);
            out.push('B' as u8);
        },
        Opcode::Mul => {
            out.push('M' as u8);
            out.push('U' as u8);
            out.push('L' as u8);
        },
        Opcode::Div => {
            out.push('D' as u8);
            out.push('I' as u8);
            out.push('V' as u8);
        },
        Opcode::Constant(i) => {
            out.push('C' as u8);
            out.push('O' as u8);
            out.push('N' as u8);
            out.push('S' as u8);
            out.push('T' as u8);
            out.push('A' as u8);
            out.push('N' as u8);
            out.push('T' as u8);
            out.push(' ' as u8);
            push_dec(out, *i as u64);
        },
        Opcode::Literal(n) => {
            out.push('L' as u8);
            out.push('I' as u8);
            out.push('T' as u8);
            out.push('E' as u8);
            out.push('R' as u8);
            out.push('A' as u8);
            out.push('L' as u8);
            out.push(' ' as u8);
            push_dec(out, *n as u64);
        },
    }
    proof {
        assert(out@ =~= old(out)@ + mnemonic_text(*op));
    }
}

impl Opcode {
    /// The mnemonic as text, in place of a `Display` impl.
    pub fn mnemonic(&self) -> (r: String)
        ensures
            r@ == mnemonic_text(*self).map_values(|b: u8| b as char),
    {
        let mut out: Vec<u8> = Vec::new();
        push_mnemonic(&mut out, self);
        proof {
            lemma_mnemonic_ascii(*self);
        }
        bytes_to_string(out)
    }
}

/// One listing line: the zero-padded offset, the resolved source line, the
/// mnemonic, and for `Constant` the resolved pool value.
pub open spec fn instr_line_text(off: int, line: u16, op: Opcode, values: Seq<Value>) -> Seq<u8> {
    pad4(dec_digits(off)) + seq![':' as u8, 'l' as u8, 'n' as u8, ' ' as u8] + dec_digits(
        line as int,
    ) + seq![' ' as u8] + (match op {
        Opcode::Constant(i) => mnemonic_text(op) + seq![' ' as u8] + float_text(
            values[i as int],
        ),
        _ => mnemonic_text(op),
    }) + seq!['\n' as u8]
}

/// The listing of the first `n` instructions, one line each.
pub open spec fn listing_text(
    code: Seq<Opcode>,
    values: Seq<Value>,
    lines: Seq<(u8, u16)>,
    n: int,
) -> Seq<u8>
    decreases n,
{
    if n <= 0 {
        Seq::empty()
    } else {
        listing_text(code, values, lines, n - 1) + instr_line_text(
            n - 1,
            expand_lines(lines)[n - 1],
            code[n - 1],
            values,
        )
    }
}

/// The whole listing: `=== {name} ===`, one line per instruction, and the
/// closing marker.
pub open spec fn disasm_text(
    code: Seq<Opcode>,
    values: Seq<Value>,
    lines: Seq<(u8, u16)>,
    name: Seq<u8>,
) -> Seq<u8> {
    seq!['=' as u8, '=' as u8, '=' as u8, ' ' as u8] + name + seq![
        ' ' as u8, '=' as u8, '=' as u8, '=' as u8, '\n' as u8,
    ] + listing_text(code, values, lines, code.len() as int) + seq![
        '=' as u8, '=' as u8, '=' as u8, '=' as u8, '=' as u8, '=' as u8, '=' as u8, '=' as u8,
    ]
}

impl Chunk {
    /// Every `Constant` operand indexes into the pool.
    pub open spec fn constants_ok(self) -> bool {
        forall|k: int|
            0 <= k < self.code@.len() ==> (#[trigger] self.code@[k] matches Opcode::Constant(i)
                ==> (i as int) < self.values@.len())
    }

    /// Render the disassembly listing. When the bytes it assembles are all
    /// ASCII — a constant's rendered value and the mnemonics always are, so
    /// this turns only on `name` — the returned text is exactly them.
    pub fn disassemble(&self, name: &str) -> (r: String)
        requires
            self.wf(),
            self.constants_ok(),
        ensures
            ({
                let bytes = disasm_text(self.code@, self.values@, self.lines@, name.spec_bytes());
                ascii_seq(bytes) ==> r@ == bytes.map_values(|b: u8| b as char)
            }),
    {
        let ghost code = self.code@;
        let ghost values = self.values@;
        let ghost table = self.lines@;
        let mut out: Vec<u8> = Vec::new();
        out.push('=' as u8);
        out.push('=' as u8);
        out.push('=' as u8);
        out.push(' ' as u8);
        push_all(&mut out, name.as_bytes());
        out.push(' ' as u8);
        out.push('=' as u8);
        out.push('=' as u8);
        out.push('=' as u8);
        out.push('\n' as u8);
        let ghost header = out@;
        let n = self.code.len();
        let mut off: usize = 0;
        while off < n
            invariant
                0 <= off <= n == code.len(),
                self.wf(),
                self.constants_ok(),
                self.code@ == code,
                self.values@ == values,
                self.lines@ == table,
                out@ == header + listing_text(code, values, table, off as int),
            decreases n - off,
        {
            let ghost before = out@;
            let line = match self.line_for(off) {
                Some(l) => l,
                None => unreached(),
            };
            push_dec_padded(&mut out, off as u64);
            out.push(':' as u8);
            out.push('l' as u8);
            out.push('n' as u8);
            out.push(' ' as u8);
            push_dec(&mut out, line as u64);
            out.push(' ' as u8);
            let op = self.code[off];
            push_mnemonic(&mut out, &op);
            match op {
                Opcode::Constant(i) => {
                    out.push(' ' as u8);
                    let rendered = render_value(self.values[i as usize]);
                    push_all(&mut out, rendered.as_slice());
                },
                _ => {},
            }
            out.push('\n' as u8);
            off = off + 1;
            proof {
                assert(out@ =~= before + instr_line_text(
                    off - 1,
                    expand_lines(table)[off - 1],
                    code[off - 1],
                    values,
                ));
                assert(out@ =~= header + listing_text(code, values, table, off as int));
            }
        }
        out.push('=' as u8);
        out.push('=' as u8);
        out.push('=' as u8);
        out.push('=' as u8);
        out.push('=' as u8);
        out.push('=' as u8);
        out.push('=' as u8);
        out.push('=' as u8);
        proof {
            assert(out@ =~= disasm_text(code, values, table, name.spec_bytes()));
        }
        bytes_to_string(out)
    }
}

} // verus!
