//! The ordered symbol table and the floor-search resolver.

use vstd::prelude::*;
use vstd::pervasive::VecAdditionalExecFns;

use crate::tokens::copy_bytes;

verus! {

/// A named code location, with an optional owning module tag.
#[derive(Debug)]
pub struct Symbol {
    pub name: Vec<u8>,
    pub module: Option<Vec<u8>>,
}

/// The mathematical content of a `Symbol`.
pub ghost struct SymModel {
    pub name: Seq<u8>,
    pub module: Option<Seq<u8>>,
}

impl View for Symbol {
    type V = SymModel;

    open spec fn view(&self) -> SymModel {
        SymModel {
            name: self.name@,
            module: match self.module {
                Some(m) => Some(m@),
                None => None,
            },
        }
    }
}

/// Entry addresses strictly increase along the sequence.
pub open spec fn sorted(s: Seq<(u64, Symbol)>) -> bool {
    forall|i: int, j: int| 0 <= i < j < s.len() ==> (#[trigger] s[i]).0 < (#[trigger] s[j]).0
}

/// Some entry of `s` carries address `a`.
pub open spec fn has_addr(s: Seq<(u64, Symbol)>, a: u64) -> bool {
    exists|i: int| 0 <= i < s.len() && (#[trigger] s[i]).0 == a
}

/// The index of the entry carrying address `a`.
pub open spec fn addr_index(s: Seq<(u64, Symbol)>, a: u64) -> int {
    choose|i: int| 0 <= i < s.len() && (#[trigger] s[i]).0 == a
}

/// In a sorted sequence an address determines its index.
proof fn lemma_unique_index(s: Seq<(u64, Symbol)>, i: int, j: int)
    requires
        sorted(s),
        0 <= i < s.len(),
        0 <= j < s.len(),
        s[i].0 == s[j].0,
    ensures
        i == j,
{
    if i < j {
        assert(s[i].0 < s[j].0);
    } else if j < i {
        assert(s[j].0 < s[i].0);
    }
}

/// An ordered mapping from load addresses to symbols. Addresses strictly
/// increase along the entry vector, so a floor query is a binary search.
#[derive(Debug)]
pub struct SymTable {
    pub entries: Vec<(u64, Symbol)>,
}

impl SymTable {
    /// Well-formedness: strictly sorted, hence each address occurs once.
    pub open spec fn wf(&self) -> bool {
        sorted(self.entries@)
    }

    /// The table holds an entry at address `a`.
    pub open spec fn contains_addr(&self, a: u64) -> bool {
        has_addr(self.entries@, a)
    }

    /// The symbol recorded at address `a`.
    pub open spec fn sym_at(&self, a: u64) -> SymModel {
        self.entries@[addr_index(self.entries@, a)].1@
    }

    /// Some entry lies at or below `a`.
    pub open spec fn has_floor(&self, a: u64) -> bool {
        exists|k: u64| #[trigger] self.contains_addr(k) && k <= a
    }

    /// The greatest recorded address not exceeding `a`.
    pub open spec fn floor_of(&self, a: u64) -> u64 {
        choose|k: u64|
            #[trigger] self.contains_addr(k) && k <= a && (forall|j: u64|
                #[trigger] self.contains_addr(j) && j <= a ==> j <= k)
    }

    /// An empty table.
    pub fn new() -> (r: SymTable)
        ensures
            r.wf(),
            r.entries@.len() == 0,
            forall|a: u64| !r.contains_addr(a),
    {
        SymTable { entries: Vec::new() }
    }

    /// Inserts a symbol at `addr`. An entry already recorded at the same
    /// address is replaced: the last write wins.
    pub fn insert(&mut self, addr: u64, sym: Symbol)
        requires
            old(self).wf(),
        ensures
            final(self).wf(),
            forall|a: u64|
                final(self).contains_addr(a) <==> (old(self).contains_addr(a) || a == addr),
            final(self).sym_at(addr) == sym@,
            forall|a: u64|
                a != addr && old(self).contains_addr(a) ==> final(self).sym_at(a) == old(
                    self,
                ).sym_at(a),
    {
        let ghost pre = self.entries@;
        let ghost pair = (addr, sym);
        let n = self.entries.len();
        proof {
            assert(pre.len() == n);
        }
        match floor_index(&self.entries, addr) {
            None => {
                self.entries.insert(0, (addr, sym));
                proof {
                    pre.insert_ensures(0, pair);
                    lemma_inserted(pre, self.entries@, 0, addr, pair.1@);
                }
            },
            Some(i) => {
                if self.entries[i].0 == addr {
                    self.entries.set(i, (addr, sym));
                    proof {
                        lemma_replaced(pre, self.entries@, i as int, addr, pair.1@);
                    }
                } else {
                    self.entries.insert(i + 1, (addr, sym));
                    proof {
                        pre.insert_ensures(i as int + 1, pair);
                        assert(pre[i as int].0 < addr);
                        lemma_inserted(pre, self.entries@, i as int + 1, addr, pair.1@);
                    }
                }
            },
        }
    }
}

/// Replacing the entry at an index that already carried `addr` keeps the
/// order and rebinds only that address.
proof fn lemma_replaced(
    pre: Seq<(u64, Symbol)>,
    post: Seq<(u64, Symbol)>,
    p: int,
    addr: u64,
    v: SymModel,
)
    requires
        sorted(pre),
        0 <= p < pre.len(),
        pre[p].0 == addr,
        post.len() == pre.len(),
        post[p].0 == addr,
        post[p].1@ == v,
        forall|i: int| 0 <= i < pre.len() && i != p ==> post[i] == pre[i],
    ensures
        sorted(post),
        forall|a: u64| has_addr(post, a) <==> (has_addr(pre, a) || a == addr),
        post[addr_index(post, addr)].1@ == v,
        forall|a: u64|
            a != addr && has_addr(pre, a) ==> post[addr_index(post, a)].1 == pre[addr_index(
                pre,
                a,
            )].1,
{
    assert(forall|i: int| 0 <= i < pre.len() ==> (#[trigger] post[i]).0 == pre[i].0);
    assert(sorted(post));
    assert forall|a: u64| has_addr(post, a) <==> (has_addr(pre, a) || a == addr) by {
        if has_addr(post, a) {
            let i = addr_index(post, a);
            assert(pre[i].0 == a);
        }
        if has_addr(pre, a) {
            let i = addr_index(pre, a);
            assert(post[i].0 == a);
        }
        if a == addr {
            assert(post[p].0 == a);
        }
    }
    assert(post[addr_index(post, addr)].1@ == v) by {
        assert(post[p].0 == addr);
        lemma_unique_index(post, addr_index(post, addr), p);
    }
    assert forall|a: u64| a != addr && has_addr(pre, a) implies post[addr_index(post, a)].1
        == pre[addr_index(pre, a)].1 by {
        let i = addr_index(pre, a);
        assert(pre[i].0 == a);
        assert(post[i].0 == a);
        lemma_unique_index(post, addr_index(post, a), i);
        assert(i != p);
    }
}

/// Inserting a fresh address at its ordered position keeps the order, adds
/// exactly that address, and leaves every other binding unchanged.
proof fn lemma_inserted(
    pre: Seq<(u64, Symbol)>,
    post: Seq<(u64, Symbol)>,
    p: int,
    addr: u64,
    v: SymModel,
)
    requires
        sorted(pre),
        0 <= p <= pre.len(),
        forall|j: int| 0 <= j < p ==> (#[trigger] pre[j]).0 < addr,
        forall|j: int| p <= j < pre.len() ==> (#[trigger] pre[j]).0 > addr,
        post.len() == pre.len() + 1,
        post[p].0 == addr,
        post[p].1@ == v,
        forall|i: int| 0 <= i < p ==> post[i] == pre[i],
        forall|i: int| p <= i < pre.len() ==> post[i + 1] == pre[i],
    ensures
        sorted(post),
        forall|a: u64| has_addr(post, a) <==> (has_addr(pre, a) || a == addr),
        post[addr_index(post, addr)].1@ == v,
        forall|a: u64|
            a != addr && has_addr(pre, a) ==> post[addr_index(post, a)].1 == pre[addr_index(
                pre,
                a,
            )].1,
{
    assert forall|i: int, j: int| 0 <= i < j < post.len() implies (#[trigger] post[i]).0 < (
    #[trigger] post[j]).0 by {
        if i < p && j < p {
        } else if i < p && j == p {
        } else if i == p && j > p {
            assert(post[j] == pre[j - 1]);
        } else if i < p && j > p {
            assert(post[j] == pre[j - 1]);
        } else if i > p && j > p {
            assert(post[i] == pre[i - 1]);
            assert(post[j] == pre[j - 1]);
        }
    }
    assert forall|a: u64| has_addr(post, a) <==> (has_addr(pre, a) || a == addr) by {
        if has_addr(post, a) {
            let i = addr_index(post, a);
            if i < p {
                assert(pre[i].0 == a);
            } else if i == p {
            } else {
                assert(pre[i - 1].0 == a);
            }
        }
        if has_addr(pre, a) {
            let i = addr_index(pre, a);
            if i < p {
                assert(post[i].0 == a);
            } else {
                assert(post[i + 1].0 == a);
            }
        }
        if a == addr {
            assert(post[p].0 == a);
        }
    }
    assert(post[addr_index(post, addr)].1@ == v) by {
        assert(post[p].0 == addr);
        lemma_unique_index(post, addr_index(post, addr), p);
    }
    assert forall|a: u64| a != addr && has_addr(pre, a) implies post[addr_index(post, a)].1
        == pre[addr_index(pre, a)].1 by {
        let i = addr_index(pre, a);
        assert(pre[i].0 == a);
        if i < p {
            assert(post[i].0 == a);
            lemma_unique_index(post, addr_index(post, a), i);
        } else {
            assert(post[i + 1].0 == a);
            lemma_unique_index(post, addr_index(post, a), i + 1);
        }
    }
}

/// The greatest index whose address is at most `needle`, if any, found by
/// binary search over the sorted entries.
fn floor_index(entries: &Vec<(u64, Symbol)>, needle: u64) -> (r: Option<usize>)
    requires
        sorted(entries@),
    ensures
        match r {
            Some(i) => i < entries@.len() && entries@[i as int].0 <= needle && (forall|j: int|
                0 <= j < entries@.len() && (#[trigger] entries@[j]).0 <= needle ==> j <= i as int),
            None => forall|j: int| 0 <= j < entries@.len() ==> (#[trigger] entries@[j]).0 > needle,
        },
{
    let n = entries.len();
    if n == 0 {
        return None;
    }
    if entries[0].0 > needle {
        return None;
    }
    let mut lo: usize = 0;
    let mut hi: usize = n - 1;
    while lo < hi
        invariant
            lo <= hi < n,
            n == entries@.len(),
            sorted(entries@),
            entries@[lo as int].0 <= needle,
            forall|j: int| hi < j < n ==> (#[trigger] entries@[j]).0 > needle,
        decreases hi - lo,
    {
        let mid = lo + (hi - lo + 1) / 2;
        if entries[mid].0 <= needle {
            lo = mid;
        } else {
            hi = mid - 1;
        }
    }
    Some(lo)
}

/// A resolved address: the enclosing symbol's load address, the byte
/// offset of the queried address into it, and a copy of the symbol.
#[derive(Debug)]
pub struct SymOffset {
    pub addr: u64,
    pub offset: u64,
    pub sym: Symbol,
}

/// What resolution of `needle` against `t` returns: the entry with the
/// greatest address not exceeding `needle` and the byte offset to it, or
/// nothing when every entry lies above `needle`.
pub open spec fn resolves(t: SymTable, needle: u64, r: Option<SymOffset>) -> bool {
    match r {
        Some(so) => t.contains_addr(so.addr) && so.addr <= needle && so.offset == needle - so.addr
            && so.sym@ == t.sym_at(so.addr) && (forall|a: u64|
            #[trigger] t.contains_addr(a) && a <= needle ==> a <= so.addr),
        None => forall|a: u64| #[trigger] t.contains_addr(a) ==> a > needle,
    }
}

/// Finds the symbol enclosing `needle`: the entry with the greatest
/// address not exceeding it, together with the offset of `needle` into it.
pub fn find_sym(needle: u64, syms: &SymTable) -> (r: Option<SymOffset>)
    requires
        syms.wf(),
    ensures
        resolves(*syms, needle, r),
{
    match floor_index(&syms.entries, needle) {
        None => {
            proof {
                assert forall|a: u64| #[trigger] syms.contains_addr(a) implies a > needle by {
                    let i = addr_index(syms.entries@, a);
                    assert(syms.entries@[i].0 == a);
                }
            }
            None
        },
        Some(i) => {
            let addr = syms.entries[i].0;
            let name = copy_bytes(&syms.entries[i].1.name);
            let module = match &syms.entries[i].1.module {
                Some(m) => Some(copy_bytes(m)),
                None => None,
            };
            let sym = Symbol { name, module };
            proof {
                assert(syms.entries@[i as int].0 == addr);
                assert(syms.contains_addr(addr));
                lemma_unique_index(syms.entries@, addr_index(syms.entries@, addr), i as int);
                assert(sym@ == syms.entries@[i as int].1@);
                assert forall|a: u64| #[trigger] syms.contains_addr(a) && a <= needle implies a
                    <= addr by {
                    let j = addr_index(syms.entries@, a);
                    assert(syms.entries@[j].0 == a);
                    assert(j <= i as int);
                    if j < i as int {
                        assert(syms.entries@[j].0 < syms.entries@[i as int].0);
                    }
                }
            }
            Some(SymOffset { addr, offset: needle - addr, sym })
        },
    }
}

/// Resolution agrees with the spec-level floor: a result exists exactly
/// when some entry lies at or below the query, and then it is the greatest
/// such entry.
pub proof fn lemma_resolves_floor(t: SymTable, needle: u64, r: Option<SymOffset>)
    requires
        t.wf(),
        resolves(t, needle, r),
    ensures
        r is Some <==> t.has_floor(needle),
        r matches Some(so) ==> so.addr == t.floor_of(needle) && so.offset == needle - t.floor_of(
            needle,
        ) && so.sym@ == t.sym_at(t.floor_of(needle)),
{
    match r {
        Some(so) => {
            assert(t.contains_addr(so.addr) && so.addr <= needle);
            assert(t.has_floor(needle));
            assert(t.contains_addr(so.addr) && so.addr <= needle && (forall|j: u64|
                #[trigger] t.contains_addr(j) && j <= needle ==> j <= so.addr));
            let k = t.floor_of(needle);
            assert(t.contains_addr(k) && k <= needle && (forall|j: u64|
                #[trigger] t.contains_addr(j) && j <= needle ==> j <= k));
            assert(so.addr <= k);
            assert(k <= so.addr);
        },
        None => {
            if t.has_floor(needle) {
                let k = choose|k: u64| #[trigger] t.contains_addr(k) && k <= needle;
                assert(k > needle);
            }
        },
    }
}

/// Resolving an address that is exactly a recorded symbol address yields
/// that symbol, with offset zero.
pub proof fn lemma_resolve_exact(t: SymTable, a: u64, r: Option<SymOffset>)
    requires
        t.wf(),
        t.contains_addr(a),
        resolves(t, a, r),
    ensures
        r matches Some(so) && so.addr == a && so.offset == 0 && so.sym@ == t.sym_at(a),
{
    match r {
        Some(so) => {
            assert(a <= so.addr);
        },
        None => {
            assert(a > a);
        },
    }
}

/// Resolving an address strictly between a recorded symbol and the next
/// recorded one yields the lower symbol, with the distance as the offset.
pub proof fn lemma_resolve_between(t: SymTable, base: u64, addr: u64, r: Option<SymOffset>)
    requires
        t.wf(),
        t.contains_addr(base),
        base < addr,
        forall|k: u64| #[trigger] t.contains_addr(k) ==> !(base < k <= addr),
        resolves(t, addr, r),
    ensures
        r matches Some(so) && so.addr == base && so.offset == addr - base && so.sym@ == t.sym_at(
            base,
        ),
{
    match r {
        Some(so) => {
            assert(base <= so.addr);
            assert(!(base < so.addr <= addr));
        },
        None => {
            assert(base > addr);
        },
    }
}

/// Within one symbol the offset grows strictly with the queried address.
pub proof fn lemma_offset_monotonic(
    t: SymTable,
    a1: u64,
    a2: u64,
    s1: SymOffset,
    s2: SymOffset,
)
    requires
        t.wf(),
        a1 < a2,
        resolves(t, a1, Some(s1)),
        resolves(t, a2, Some(s2)),
        s1.addr == s2.addr,
    ensures
        s1.offset < s2.offset,
{
}

/// An address below the lowest recorded symbol resolves to nothing.
pub proof fn lemma_resolve_below_lowest(t: SymTable, a: u64, r: Option<SymOffset>)
    requires
        t.wf(),
        forall|k: u64| #[trigger] t.contains_addr(k) ==> a < k,
        resolves(t, a, r),
    ensures
        r is None,
{
    match r {
        Some(so) => {
            assert(t.contains_addr(so.addr));
            assert(a < so.addr);
        },
        None => {
        },
    }
}

} // verus!
