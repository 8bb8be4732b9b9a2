//! The line grammars of the two inputs, and the builders that consume
//! them: a symbol-table listing and a function-call trace.

use vstd::prelude::*;

use crate::errors::ResolveError;
use crate::numbers::{dec_value, hex_value, is_dec_u32, is_hex_u64, parse_dec_u32, parse_hex_u64};
use crate::symtab::{SymModel, SymTable, Symbol};
use crate::tokens::{copy_bytes, copy_range, lemma_tokens_nonempty, split_tokens, tokens_of};

verus! {

/// The per-line views of a sequence of lines.
pub open spec fn line_views(lines: Seq<Vec<u8>>) -> Seq<Seq<u8>> {
    lines.map_values(|l: Vec<u8>| l@)
}

/// An ASCII letter.
pub open spec fn is_alpha(b: u8) -> bool {
    (65 <= b <= 90) || (97 <= b <= 122)
}

/// A module tag token: a name of at least one byte between brackets.
pub open spec fn is_module_token(m: Seq<u8>) -> bool {
    m.len() >= 3 && m[0] == 91u8 && m[m.len() - 1] == 93u8
}

/// The reading of one symbol-table line.
pub ghost enum SymLine {
    /// The line records `sym` at load address `addr`.
    Entry { addr: u64, sym: SymModel },
    /// The line does not match the symbol grammar.
    BadShape,
    /// The address field is not a `u64` hexadecimal numeral.
    BadAddr,
}

/// The grammar of a symbol-table line: a hexadecimal load address, a
/// one-letter symbol type, a name, and optionally a bracketed module tag,
/// separated by whitespace. The type letter is parsed but not retained.
pub open spec fn sym_line(s: Seq<u8>) -> SymLine {
    let t = tokens_of(s);
    if t.len() != 3 && t.len() != 4 {
        SymLine::BadShape
    } else if !is_hex_u64(t[0]) {
        SymLine::BadAddr
    } else if !(t[1].len() == 1 && is_alpha(t[1][0])) {
        SymLine::BadShape
    } else if t.len() == 4 && !is_module_token(t[3]) {
        SymLine::BadShape
    } else {
        SymLine::Entry {
            addr: hex_value(t[0]) as u64,
            sym: SymModel {
                name: t[2],
                module: if t.len() == 4 {
                    Some(t[3].subrange(1, t[3].len() - 1))
                } else {
                    None
                },
            },
        }
    }
}

/// `e` is the error owed for the failing symbol-table line `line`.
pub open spec fn sym_line_err(line: Seq<u8>, e: ResolveError) -> bool {
    match sym_line(line) {
        SymLine::BadShape => e matches ResolveError::MalformedSymbolLine(l) && l@ == line,
        SymLine::BadAddr => e matches ResolveError::InvalidAddress(l) && l@ == line,
        SymLine::Entry { .. } => false,
    }
}

/// Parses one symbol-table line into its address and symbol.
pub fn parse_sym_line(line: &Vec<u8>) -> (r: Result<(u64, Symbol), ResolveError>)
    ensures
        match r {
            Ok(p) => sym_line(line@) == (SymLine::Entry { addr: p.0, sym: p.1@ }),
            Err(e) => sym_line_err(line@, e),
        },
{
    let mut toks = split_tokens(line);
    proof {
        lemma_tokens_nonempty(line@);
    }
    let nt = toks.len();
    if nt != 3 && nt != 4 {
        return Err(ResolveError::MalformedSymbolLine(copy_bytes(line)));
    }
    let addr = match parse_hex_u64(&toks[0]) {
        None => {
            return Err(ResolveError::InvalidAddress(copy_bytes(line)));
        },
        Some(a) => a,
    };
    if toks[1].len() != 1 {
        return Err(ResolveError::MalformedSymbolLine(copy_bytes(line)));
    }
    let ty = toks[1][0];
    if !((65 <= ty && ty <= 90) || (97 <= ty && ty <= 122)) {
        return Err(ResolveError::MalformedSymbolLine(copy_bytes(line)));
    }
    let module: Option<Vec<u8>> = if nt == 4 {
        let mlen = toks[3].len();
        if mlen < 3 {
            return Err(ResolveError::MalformedSymbolLine(copy_bytes(line)));
        }
        if toks[3][0] != 91 {
            return Err(ResolveError::MalformedSymbolLine(copy_bytes(line)));
        }
        if toks[3][mlen - 1] != 93 {
            return Err(ResolveError::MalformedSymbolLine(copy_bytes(line)));
        }
        Some(copy_range(&toks[3], 1, mlen - 1))
    } else {
        None
    };
    let name = toks.swap_remove(2);
    Ok((addr, Symbol { name, module }))
}

/// One traced function call: the reporting CPU, the callee address `to`,
/// and the call-site address `from`.
#[derive(PartialEq, Eq, Structural, Clone, Copy, Debug)]
pub struct FnCall {
    pub cpu: u32,
    pub from: u64,
    pub to: u64,
}

/// The reading of one trace line.
pub ghost enum TraceLine {
    /// The line records a call on `cpu` to address `to` from address `from`.
    Rec { cpu: u32, to: u64, from: u64 },
    /// The line does not match the trace grammar.
    BadShape,
    /// A numeric field does not parse or does not fit its type.
    BadNum,
}

/// The grammar of a trace line: a decimal CPU index, then the callee and
/// call-site addresses in hexadecimal, separated by whitespace.
pub open spec fn trace_line(s: Seq<u8>) -> TraceLine {
    let t = tokens_of(s);
    if t.len() != 3 {
        TraceLine::BadShape
    } else if !(is_dec_u32(t[0]) && is_hex_u64(t[1]) && is_hex_u64(t[2])) {
        TraceLine::BadNum
    } else {
        TraceLine::Rec {
            cpu: dec_value(t[0]) as u32,
            to: hex_value(t[1]) as u64,
            from: hex_value(t[2]) as u64,
        }
    }
}

/// `e` is the error owed for the failing trace line `line`.
pub open spec fn trace_line_err(line: Seq<u8>, e: ResolveError) -> bool {
    match trace_line(line) {
        TraceLine::BadShape => e matches ResolveError::MalformedTraceLine(l) && l@ == line,
        TraceLine::BadNum => e matches ResolveError::InvalidNumericField(l) && l@ == line,
        TraceLine::Rec { .. } => false,
    }
}

/// Parses one trace line into a call record.
pub fn parse_trace_line(line: &Vec<u8>) -> (r: Result<FnCall, ResolveError>)
    ensures
        match r {
            Ok(c) => trace_line(line@) == (TraceLine::Rec { cpu: c.cpu, to: c.to, from: c.from }),
            Err(e) => trace_line_err(line@, e),
        },
{
    let toks = split_tokens(line);
    if toks.len() != 3 {
        return Err(ResolveError::MalformedTraceLine(copy_bytes(line)));
    }
    let cpu = match parse_dec_u32(&toks[0]) {
        None => {
            return Err(ResolveError::InvalidNumericField(copy_bytes(line)));
        },
        Some(v) => v,
    };
    let to = match parse_hex_u64(&toks[1]) {
        None => {
            return Err(ResolveError::InvalidNumericField(copy_bytes(line)));
        },
        Some(v) => v,
    };
    let from = match parse_hex_u64(&toks[2]) {
        None => {
            return Err(ResolveError::InvalidNumericField(copy_bytes(line)));
        },
        Some(v) => v,
    };
    Ok(FnCall { cpu, from, to })
}

/// Every line of the listing matches the symbol grammar.
pub open spec fn sym_lines_ok(lines: Seq<Seq<u8>>) -> bool {
    forall|i: int| 0 <= i < lines.len() ==> sym_line(#[trigger] lines[i]) is Entry
}

/// Some line of the listing records address `a`.
pub open spec fn table_has(lines: Seq<Seq<u8>>, a: u64) -> bool {
    exists|i: int|
        0 <= i < lines.len() && (sym_line(#[trigger] lines[i]) matches SymLine::Entry {
            addr,
            ..
        } && addr == a)
}

/// The symbol the listing records at address `a`: the last line wins.
pub open spec fn table_sym(lines: Seq<Seq<u8>>, a: u64) -> SymModel
    decreases lines.len(),
{
    if lines.len() == 0 {
        arbitrary()
    } else {
        match sym_line(lines.last()) {
            SymLine::Entry { addr, sym } => if addr == a {
                sym
            } else {
                table_sym(lines.drop_last(), a)
            },
            SymLine::BadShape => table_sym(lines.drop_last(), a),
            SymLine::BadAddr => table_sym(lines.drop_last(), a),
        }
    }
}

/// Builds the symbol table from the lines of a symbol listing. Every line
/// must parse; the first failing line aborts the build with its error.
/// The table then records exactly the listed addresses, the last line
/// winning when one address is listed twice.
pub fn kallsyms(lines: &Vec<Vec<u8>>) -> (r: Result<SymTable, ResolveError>)
    ensures
        match r {
            Ok(t) => {
                &&& sym_lines_ok(line_views(lines@))
                &&& t.wf()
                &&& forall|a: u64| t.contains_addr(a) <==> table_has(line_views(lines@), a)
                &&& forall|a: u64|
                    #[trigger] t.contains_addr(a) ==> t.sym_at(a) == table_sym(
                        line_views(lines@),
                        a,
                    )
            },
            Err(e) => exists|i: int|
                {
                    &&& 0 <= i < lines@.len()
                    &&& !(sym_line(#[trigger] line_views(lines@)[i]) is Entry)
                    &&& (forall|j: int|
                        0 <= j < i ==> sym_line(#[trigger] line_views(lines@)[j]) is Entry)
                    &&& sym_line_err(line_views(lines@)[i], e)
                },
        },
{
    let ghost lv = line_views(lines@);
    let mut t = SymTable::new();
    let mut i: usize = 0;
    proof {
        assert(lv.take(0) =~= Seq::<Seq<u8>>::empty());
    }
    while i < lines.len()
        invariant
            i <= lines@.len(),
            lv == line_views(lines@),
            t.wf(),
            forall|j: int| 0 <= j < i ==> sym_line(#[trigger] lv[j]) is Entry,
            forall|a: u64| t.contains_addr(a) <==> table_has(lv.take(i as int), a),
            forall|a: u64|
                #[trigger] t.contains_addr(a) ==> t.sym_at(a) == table_sym(lv.take(i as int), a),
        decreases lines@.len() - i,
    {
        proof {
            assert(lv[i as int] == lines@[i as int]@);
        }
        match parse_sym_line(&lines[i]) {
            Ok(p) => {
                let (addr, sym) = p;
                let ghost v = sym@;
                let ghost t_pre = t;
                t.insert(addr, sym);
                proof {
                    let pfx = lv.take(i as int);
                    let pfx1 = lv.take(i as int + 1);
                    assert(pfx1.drop_last() =~= pfx);
                    assert(pfx1.last() == lv[i as int]);
                    assert(sym_line(lv[i as int]) == (SymLine::Entry { addr, sym: v }));
                    assert forall|a: u64| t.contains_addr(a) <==> table_has(pfx1, a) by {
                        if t.contains_addr(a) {
                            if a == addr {
                                assert(sym_line(pfx1[i as int]) matches SymLine::Entry {
                                    addr: x,
                                    ..
                                } && x == a);
                                assert(table_has(pfx1, a));
                            } else {
                                assert(t_pre.contains_addr(a));
                                let j = choose|j: int|
                                    0 <= j < pfx.len() && (sym_line(#[trigger] pfx[j])
                                        matches SymLine::Entry { addr: x, .. } && x == a);
                                assert(sym_line(pfx1[j]) matches SymLine::Entry { addr: x, .. }
                                    && x == a);
                            }
                        }
                        if table_has(pfx1, a) {
                            let j = choose|j: int|
                                0 <= j < pfx1.len() && (sym_line(#[trigger] pfx1[j])
                                    matches SymLine::Entry { addr: x, .. } && x == a);
                            if j == i as int {
                                assert(a == addr);
                            } else {
                                assert(sym_line(pfx[j]) matches SymLine::Entry { addr: x, .. }
                                    && x == a);
                                assert(t_pre.contains_addr(a));
                            }
                        }
                    }
                    assert forall|a: u64| #[trigger] t.contains_addr(a) implies t.sym_at(a)
                        == table_sym(pfx1, a) by {
                        if a == addr {
                            assert(table_sym(pfx1, a) == v);
                        } else {
                            assert(table_sym(pfx1, a) == table_sym(pfx, a));
                            assert(t_pre.contains_addr(a));
                        }
                    }
                }
            },
            Err(e) => {
                proof {
                    assert((i as int) < lines@.len());
                    assert(!(sym_line(lv[i as int]) is Entry));
                    assert(sym_line_err(lv[i as int], e));
                }
                return Err(e);
            },
        }
        i += 1;
    }
    proof {
        assert(lv.take(lines@.len() as int) =~= lv);
        assert(forall|j: int| 0 <= j < lv.len() ==> sym_line(#[trigger] lv[j]) is Entry);
    }
    Ok(t)
}

/// Parses the lines of a trace into call records, preserving input order.
/// Every line must parse; the first failing line aborts with its error.
pub fn ftrace(lines: &Vec<Vec<u8>>) -> (r: Result<Vec<FnCall>, ResolveError>)
    ensures
        match r {
            Ok(calls) => calls@.len() == lines@.len() && forall|i: int|
                0 <= i < lines@.len() ==> trace_line(#[trigger] line_views(lines@)[i])
                    == (TraceLine::Rec {
                    cpu: calls@[i].cpu,
                    to: calls@[i].to,
                    from: calls@[i].from,
                }),
            Err(e) => exists|i: int|
                {
                    &&& 0 <= i < lines@.len()
                    &&& !(trace_line(#[trigger] line_views(lines@)[i]) is Rec)
                    &&& (forall|j: int|
                        0 <= j < i ==> trace_line(#[trigger] line_views(lines@)[j]) is Rec)
                    &&& trace_line_err(line_views(lines@)[i], e)
                },
        },
{
    let ghost lv = line_views(lines@);
    let mut calls: Vec<FnCall> = Vec::new();
    let mut i: usize = 0;
    while i < lines.len()
        invariant
            i <= lines@.len(),
            lv == line_views(lines@),
            calls@.len() == i,
            forall|j: int|
                0 <= j < i ==> trace_line(#[trigger] lv[j]) == (TraceLine::Rec {
                    cpu: calls@[j].cpu,
                    to: calls@[j].to,
                    from: calls@[j].from,
                }),
        decreases lines@.len() - i,
    {
        proof {
            assert(lv[i as int] == lines@[i as int]@);
        }
        match parse_trace_line(&lines[i]) {
            Ok(c) => {
                calls.push(c);
            },
            Err(e) => {
                proof {
                    assert(!(trace_line(lv[i as int]) is Rec));
                }
                return Err(e);
            },
        }
        i += 1;
    }
    Ok(calls)
}

} // verus!
