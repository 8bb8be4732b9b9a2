//! The symbolization pipeline: resolve both endpoints of every call
//! record against the fixed table and render one output line per record,
//! in input order.

use vstd::prelude::*;

use crate::errors::ResolveError;
use crate::parse::FnCall;
use crate::render::{call_line_repr, render_call_line};
use crate::symtab::{find_sym, lemma_resolves_floor, SymTable};

verus! {

/// The output line owed for call `c`: both endpoints resolved to their
/// floor symbols, with the byte offsets into them.
pub open spec fn symbolized_line(t: SymTable, c: FnCall) -> Seq<u8> {
    call_line_repr(
        c.cpu,
        t.sym_at(t.floor_of(c.to)),
        (c.to - t.floor_of(c.to)) as u64,
        t.sym_at(t.floor_of(c.from)),
        (c.from - t.floor_of(c.from)) as u64,
    )
}

/// Resolves and renders every call record, in input order. A record with
/// an endpoint below every symbol of the table aborts the run with
/// `UnresolvedAddress` carrying that endpoint, the call site checked
/// before the callee.
#[verifier::rlimit(60)]
pub fn symbolize(syms: &SymTable, calls: &Vec<FnCall>) -> (r: Result<Vec<Vec<u8>>, ResolveError>)
    requires
        syms.wf(),
    ensures
        match r {
            Ok(out) => {
                &&& out@.len() == calls@.len()
                &&& forall|i: int|
                    0 <= i < calls@.len() ==> #[trigger] syms.has_floor(calls@[i].to)
                        && syms.has_floor(calls@[i].from)
                &&& forall|i: int|
                    0 <= i < calls@.len() ==> #[trigger] out@[i]@ == symbolized_line(
                        *syms,
                        calls@[i],
                    )
            },
            Err(e) => exists|i: int|
                {
                    &&& 0 <= i < calls@.len()
                    &&& (forall|j: int|
                        0 <= j < i ==> #[trigger] syms.has_floor(calls@[j].to) && syms.has_floor(
                            calls@[j].from,
                        ))
                    &&& (!syms.has_floor(calls@[i].from) || !syms.has_floor(calls@[i].to))
                    &&& e == ResolveError::UnresolvedAddress(
                        if !syms.has_floor(calls@[i].from) {
                            calls@[i].from
                        } else {
                            calls@[i].to
                        },
                    )
                },
        },
{
    let mut out: Vec<Vec<u8>> = Vec::new();
    let mut i: usize = 0;
    while i < calls.len()
        invariant
            syms.wf(),
            i <= calls@.len(),
            out@.len() == i,
            forall|j: int|
                0 <= j < i ==> #[trigger] syms.has_floor(calls@[j].to) && syms.has_floor(
                    calls@[j].from,
                ),
            forall|j: int|
                0 <= j < i ==> #[trigger] out@[j]@ == symbolized_line(*syms, calls@[j]),
        decreases calls@.len() - i,
    {
        let c = calls[i];
        let from_so = match find_sym(c.from, syms) {
            None => {
                proof {
                    lemma_resolves_floor(*syms, c.from, None);
                }
                return Err(ResolveError::UnresolvedAddress(c.from));
            },
            Some(so) => so,
        };
        proof {
            lemma_resolves_floor(*syms, c.from, Some(from_so));
        }
        let to_so = match find_sym(c.to, syms) {
            None => {
                proof {
                    lemma_resolves_floor(*syms, c.to, None);
                }
                return Err(ResolveError::UnresolvedAddress(c.to));
            },
            Some(so) => so,
        };
        proof {
            lemma_resolves_floor(*syms, c.to, Some(to_so));
        }
        let line = render_call_line(c.cpu, &to_so, &from_so);
        proof {
            assert(line@ == symbolized_line(*syms, c));
        }
        out.push(line);
        proof {
            assert(c == calls@[i as int]);
            assert forall|j: int|
                0 <= j < i as int + 1 implies #[trigger] syms.has_floor(calls@[j].to)
                && syms.has_floor(calls@[j].from) by {
                if j == i as int {
                    assert(syms.has_floor(c.to));
                    assert(syms.has_floor(c.from));
                }
            }
            assert(out@[i as int]@ == symbolized_line(*syms, calls@[i as int]));
        }
        i += 1;
    }
    Ok(out)
}

} // verus!
