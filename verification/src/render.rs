//! Rendering of symbols, resolved addresses, and whole output lines.

use vstd::prelude::*;

use crate::numbers::{
    dec_repr, hex_repr, is_lower_hex_digit, lemma_hex_repr_canonical, u32_to_dec, u64_to_hex,
};
use crate::symtab::{SymModel, SymOffset, Symbol};
use crate::tokens::copy_bytes;

verus! {

/// The rendering of a symbol: its name, with the module tag in brackets
/// when one is present.
pub open spec fn sym_repr(s: SymModel) -> Seq<u8> {
    match s.module {
        Some(m) => s.name + seq![91u8] + m + seq![93u8],
        None => s.name,
    }
}

/// The rendering of a resolved symbol: the symbol, and for a nonzero
/// offset the suffix `+0x<offset>` in lowercase hexadecimal without
/// leading zeros. A zero offset is omitted entirely.
pub open spec fn sym_offset_repr(s: SymModel, offset: u64) -> Seq<u8> {
    if offset == 0 {
        sym_repr(s)
    } else {
        sym_repr(s) + seq![43u8, 48u8, 120u8] + hex_repr(offset as nat)
    }
}

/// One output line: the CPU index in decimal, the resolved callee, the
/// arrow, and the resolved call site.
pub open spec fn call_line_repr(
    cpu: u32,
    to_sym: SymModel,
    to_off: u64,
    from_sym: SymModel,
    from_off: u64,
) -> Seq<u8> {
    dec_repr(cpu as nat) + seq![32u8] + sym_offset_repr(to_sym, to_off) + seq![
        32u8,
        60u8,
        45u8,
        32u8,
    ] + sym_offset_repr(from_sym, from_off)
}

/// The shape of a rendered resolution: a zero offset leaves the symbol
/// bare, and a nonzero offset always appends `+0x` followed by at least
/// one lowercase hexadecimal digit, with no leading zero.
pub proof fn lemma_sym_offset_repr_form(s: SymModel, offset: u64)
    ensures
        offset == 0 ==> sym_offset_repr(s, offset) == sym_repr(s),
        offset > 0 ==> sym_offset_repr(s, offset) == sym_repr(s) + seq![43u8, 48u8, 120u8]
            + hex_repr(offset as nat),
        offset > 0 ==> hex_repr(offset as nat).len() >= 1 && hex_repr(offset as nat)[0] != 48u8,
        forall|i: int|
            0 <= i < hex_repr(offset as nat).len() ==> is_lower_hex_digit(
                #[trigger] hex_repr(offset as nat)[i],
            ),
{
    lemma_hex_repr_canonical(offset);
}

/// Appends `src` to `dst`.
pub fn append_bytes(dst: &mut Vec<u8>, src: &Vec<u8>)
    ensures
        final(dst)@ == old(dst)@ + src@,
{
    let mut i: usize = 0;
    while i < src.len()
        invariant
            i <= src.len(),
            dst@ =~= old(dst)@ + src@.take(i as int),
        decreases src.len() - i,
    {
        dst.push(src[i]);
        i += 1;
    }
    proof {
        assert(src@.take(src@.len() as int) =~= src@);
    }
}

impl Symbol {
    /// Renders the symbol as `name` or `name[module]`.
    pub fn render(&self) -> (r: Vec<u8>)
        ensures
            r@ == sym_repr(self@),
    {
        let mut out = copy_bytes(&self.name);
        match &self.module {
            Some(m) => {
                out.push(91);
                append_bytes(&mut out, m);
                out.push(93);
                proof {
                    assert(out@ =~= sym_repr(self@));
                }
            },
            None => {
                proof {
                    assert(out@ =~= sym_repr(self@));
                }
            },
        }
        out
    }
}

impl SymOffset {
    /// Renders the resolved symbol, with its offset suffix when nonzero.
    pub fn render(&self) -> (r: Vec<u8>)
        ensures
            r@ == sym_offset_repr(self.sym@, self.offset),
    {
        let mut out = self.sym.render();
        if self.offset > 0 {
            out.push(43);
            out.push(48);
            out.push(120);
            let hex = u64_to_hex(self.offset);
            append_bytes(&mut out, &hex);
            proof {
                assert(out@ =~= sym_offset_repr(self.sym@, self.offset));
            }
        }
        out
    }
}

/// Renders one output line from the CPU index and the two resolved
/// endpoints.
pub fn render_call_line(cpu: u32, to: &SymOffset, from: &SymOffset) -> (r: Vec<u8>)
    ensures
        r@ == call_line_repr(cpu, to.sym@, to.offset, from.sym@, from.offset),
{
    let mut out = u32_to_dec(cpu);
    out.push(32);
    let t = to.render();
    append_bytes(&mut out, &t);
    out.push(32);
    out.push(60);
    out.push(45);
    out.push(32);
    let f = from.render();
    append_bytes(&mut out, &f);
    proof {
        assert(out@ =~= call_line_repr(cpu, to.sym@, to.offset, from.sym@, from.offset));
    }
    out
}

} // verus!
