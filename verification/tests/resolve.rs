use ksyms::errors::ResolveError;
use ksyms::numbers::{parse_hex_u64, u32_to_dec, u64_to_hex};
use ksyms::parse::{ftrace, kallsyms, parse_sym_line, parse_trace_line, FnCall};
use ksyms::pipeline::symbolize;
use ksyms::symtab::{find_sym, SymTable, Symbol};

fn line(s: &str) -> Vec<u8> {
    s.as_bytes().to_vec()
}

fn lines(ls: &[&str]) -> Vec<Vec<u8>> {
    ls.iter().map(|s| line(s)).collect()
}

fn sym(name: &str) -> Symbol {
    Symbol { name: line(name), module: None }
}

#[test]
fn resolve_exact_address_has_offset_zero() {
    let mut t = SymTable::new();
    t.insert(0x100, sym("alpha"));
    t.insert(0x200, sym("beta"));
    let r = find_sym(0x200, &t).unwrap();
    assert_eq!(r.addr, 0x200);
    assert_eq!(r.offset, 0);
    assert_eq!(r.sym.name, line("beta"));
}

#[test]
fn resolve_between_symbols_returns_lower_with_distance() {
    let mut t = SymTable::new();
    t.insert(0x100, sym("alpha"));
    t.insert(0x200, sym("beta"));
    let r = find_sym(0x1ff, &t).unwrap();
    assert_eq!(r.addr, 0x100);
    assert_eq!(r.offset, 0xff);
    assert_eq!(r.sym.name, line("alpha"));
}

#[test]
fn resolve_above_highest_returns_highest() {
    let mut t = SymTable::new();
    t.insert(0x100, sym("alpha"));
    t.insert(0x200, sym("beta"));
    let r = find_sym(0xffff, &t).unwrap();
    assert_eq!(r.addr, 0x200);
    assert_eq!(r.offset, 0xffff - 0x200);
}

#[test]
fn resolve_below_lowest_finds_nothing() {
    let mut t = SymTable::new();
    t.insert(0x100, sym("alpha"));
    t.insert(0x200, sym("beta"));
    assert!(find_sym(0xff, &t).is_none());
}

#[test]
fn resolve_in_empty_table_finds_nothing() {
    let t = SymTable::new();
    assert!(find_sym(0, &t).is_none());
    assert!(find_sym(u64::MAX, &t).is_none());
}

#[test]
fn offsets_grow_with_the_address() {
    let mut t = SymTable::new();
    t.insert(0x100, sym("alpha"));
    let lo = find_sym(0x110, &t).unwrap();
    let hi = find_sym(0x111, &t).unwrap();
    assert_eq!(lo.addr, hi.addr);
    assert!(lo.offset < hi.offset);
}

#[test]
fn insert_same_address_last_write_wins() {
    let mut t = SymTable::new();
    t.insert(0x100, sym("first"));
    t.insert(0x100, sym("second"));
    let r = find_sym(0x100, &t).unwrap();
    assert_eq!(r.sym.name, line("second"));
}

#[test]
fn large_table_resolves_every_gap() {
    let mut t = SymTable::new();
    for i in 0..1000u64 {
        t.insert(i * 0x10, sym("s"));
    }
    for i in 0..1000u64 {
        let r = find_sym(i * 0x10 + 7, &t).unwrap();
        assert_eq!(r.addr, i * 0x10);
        assert_eq!(r.offset, 7);
    }
}

#[test]
fn render_offset_zero_omits_suffix() {
    let mut t = SymTable::new();
    t.insert(0x100, sym("alpha"));
    let r = find_sym(0x100, &t).unwrap();
    assert_eq!(r.render(), line("alpha"));
}

#[test]
fn render_nonzero_offset_appends_lowercase_hex() {
    let mut t = SymTable::new();
    t.insert(0x100, sym("alpha"));
    let r = find_sym(0x100 + 0xbeef, &t).unwrap();
    assert_eq!(r.render(), line("alpha+0xbeef"));
}

#[test]
fn render_symbol_with_module_brackets_it() {
    let s = Symbol { name: line("do_fork"), module: Some(line("mymod")) };
    assert_eq!(s.render(), line("do_fork[mymod]"));
}

#[test]
fn hex_rendering_has_no_leading_zeros() {
    assert_eq!(u64_to_hex(0), line("0"));
    assert_eq!(u64_to_hex(1), line("1"));
    assert_eq!(u64_to_hex(0x32), line("32"));
    assert_eq!(u64_to_hex(0xdeadbeef), line("deadbeef"));
    assert_eq!(u64_to_hex(u64::MAX), line("ffffffffffffffff"));
}

#[test]
fn dec_rendering_exact_values() {
    assert_eq!(u32_to_dec(0), line("0"));
    assert_eq!(u32_to_dec(42), line("42"));
    assert_eq!(u32_to_dec(u32::MAX), line("4294967295"));
}

#[test]
fn parse_hex_accepts_both_cases_and_bounds() {
    assert_eq!(parse_hex_u64(&line("ffffffff81012340")), Some(0xffffffff81012340));
    assert_eq!(parse_hex_u64(&line("DEADbeef")), Some(0xdeadbeef));
    assert_eq!(parse_hex_u64(&line("ffffffffffffffff")), Some(u64::MAX));
    assert_eq!(parse_hex_u64(&line("00000000000000000001")), Some(1));
    assert_eq!(parse_hex_u64(&line("10000000000000000")), None);
    assert_eq!(parse_hex_u64(&line("")), None);
    assert_eq!(parse_hex_u64(&line("12g4")), None);
}

#[test]
fn symbol_line_parses_fields() {
    let (addr, s) = parse_sym_line(&line("ffffffff81012340 T do_fork")).unwrap();
    assert_eq!(addr, 0xffffffff81012340);
    assert_eq!(s.name, line("do_fork"));
    assert!(s.module.is_none());
}

#[test]
fn symbol_line_parses_module_tag() {
    let (addr, s) = parse_sym_line(&line("c8 t helper [mymod]")).unwrap();
    assert_eq!(addr, 0xc8);
    assert_eq!(s.name, line("helper"));
    assert_eq!(s.module, Some(line("mymod")));
}

#[test]
fn symbol_line_accepts_tab_separators() {
    let (addr, s) = parse_sym_line(&line("64\tT\talpha")).unwrap();
    assert_eq!(addr, 0x64);
    assert_eq!(s.name, line("alpha"));
}

#[test]
fn symbol_line_with_nonhex_address_is_invalid_address() {
    let e = kallsyms(&lines(&["zz not-hex name"])).unwrap_err();
    assert!(matches!(e, ResolveError::InvalidAddress(l) if l == line("zz not-hex name")));
}

#[test]
fn symbol_line_with_overflowing_address_is_invalid_address() {
    let e = parse_sym_line(&line("10000000000000000 T too_far")).unwrap_err();
    assert!(matches!(e, ResolveError::InvalidAddress(_)));
}

#[test]
fn symbol_line_of_wrong_shape_is_malformed() {
    assert!(matches!(
        parse_sym_line(&line("64 T")).unwrap_err(),
        ResolveError::MalformedSymbolLine(_)
    ));
    assert!(matches!(
        parse_sym_line(&line("64 TT alpha")).unwrap_err(),
        ResolveError::MalformedSymbolLine(_)
    ));
    assert!(matches!(
        parse_sym_line(&line("64 5 alpha")).unwrap_err(),
        ResolveError::MalformedSymbolLine(_)
    ));
    assert!(matches!(
        parse_sym_line(&line("64 T alpha [mod")).unwrap_err(),
        ResolveError::MalformedSymbolLine(_)
    ));
    assert!(matches!(
        parse_sym_line(&line("64 T alpha [mod] extra")).unwrap_err(),
        ResolveError::MalformedSymbolLine(_)
    ));
}

#[test]
fn first_bad_symbol_line_aborts_the_build() {
    let e = kallsyms(&lines(&["64 T alpha", "bad", "zz T gamma"])).unwrap_err();
    assert!(matches!(e, ResolveError::MalformedSymbolLine(l) if l == line("bad")));
}

#[test]
fn trace_line_parses_fields() {
    let c = parse_trace_line(&line("2 ffffffff81012340 ffffffff81099000")).unwrap();
    assert_eq!(c.cpu, 2);
    assert_eq!(c.to, 0xffffffff81012340);
    assert_eq!(c.from, 0xffffffff81099000);
}

#[test]
fn trace_line_of_wrong_shape_is_malformed() {
    assert!(matches!(
        parse_trace_line(&line("2 10")).unwrap_err(),
        ResolveError::MalformedTraceLine(_)
    ));
    assert!(matches!(
        parse_trace_line(&line("2 10 20 30")).unwrap_err(),
        ResolveError::MalformedTraceLine(_)
    ));
}

#[test]
fn trace_line_with_bad_numeral_is_invalid_numeric_field() {
    assert!(matches!(
        parse_trace_line(&line("cpu 10 20")).unwrap_err(),
        ResolveError::InvalidNumericField(_)
    ));
    assert!(matches!(
        parse_trace_line(&line("4294967296 10 20")).unwrap_err(),
        ResolveError::InvalidNumericField(_)
    ));
    assert!(matches!(
        parse_trace_line(&line("1 10g 20")).unwrap_err(),
        ResolveError::InvalidNumericField(_)
    ));
}

#[test]
fn ftrace_preserves_input_order() {
    let calls = ftrace(&lines(&["3 30 40", "1 10 20", "2 20 30"])).unwrap();
    assert_eq!(
        calls,
        vec![
            FnCall { cpu: 3, to: 0x30, from: 0x40 },
            FnCall { cpu: 1, to: 0x10, from: 0x20 },
            FnCall { cpu: 2, to: 0x20, from: 0x30 },
        ]
    );
}

#[test]
fn pipeline_resolves_both_endpoints() {
    let t = kallsyms(&lines(&["64 T alpha", "c8 T beta"])).unwrap();
    let calls = ftrace(&lines(&["1 96 fa"])).unwrap();
    let out = symbolize(&t, &calls).unwrap();
    assert_eq!(out.len(), 1);
    assert_eq!(out[0], line("1 alpha+0x32 <- beta+0x32"));
}

#[test]
fn pipeline_omits_zero_offsets() {
    let t = kallsyms(&lines(&["64 T alpha"])).unwrap();
    let calls = ftrace(&lines(&["0 64 64"])).unwrap();
    let out = symbolize(&t, &calls).unwrap();
    assert_eq!(out.len(), 1);
    assert_eq!(out[0], line("0 alpha <- alpha"));
}

#[test]
fn pipeline_keeps_trace_order() {
    let t = kallsyms(&lines(&["10 T a", "20 T b"])).unwrap();
    let calls = ftrace(&lines(&["1 20 10", "0 10 20"])).unwrap();
    let out = symbolize(&t, &calls).unwrap();
    assert_eq!(out[0], line("1 b <- a"));
    assert_eq!(out[1], line("0 a <- b"));
}

#[test]
fn pipeline_renders_module_tags() {
    let t = kallsyms(&lines(&["64 T alpha [mymod]"])).unwrap();
    let calls = ftrace(&lines(&["0 65 64"])).unwrap();
    let out = symbolize(&t, &calls).unwrap();
    assert_eq!(out[0], line("0 alpha[mymod]+0x1 <- alpha[mymod]"));
}

#[test]
fn pipeline_unresolved_address_aborts() {
    let t = kallsyms(&lines(&["c8 T beta"])).unwrap();
    let calls = ftrace(&lines(&["0 c8 64"])).unwrap();
    let e = symbolize(&t, &calls).unwrap_err();
    assert!(matches!(e, ResolveError::UnresolvedAddress(a) if a == 0x64));
}

#[test]
fn pipeline_checks_the_call_site_first() {
    let t = kallsyms(&lines(&["c8 T beta"])).unwrap();
    let calls = ftrace(&lines(&["0 10 20"])).unwrap();
    let e = symbolize(&t, &calls).unwrap_err();
    assert!(matches!(e, ResolveError::UnresolvedAddress(a) if a == 0x20));
}

#[test]
fn kallsyms_table_survives_unsorted_input() {
    let t = kallsyms(&lines(&["c8 T beta", "64 T alpha", "12c T gamma"])).unwrap();
    let r = find_sym(0x100, &t).unwrap();
    assert_eq!(r.addr, 0xc8);
    assert_eq!(r.sym.name, line("beta"));
    let r = find_sym(0x12c, &t).unwrap();
    assert_eq!(r.sym.name, line("gamma"));
    assert_eq!(r.offset, 0);
}

#[test]
fn resolution_scales_sublinearly_with_table_size() {
    let small: u64 = 1 << 13;
    let big: u64 = small * 10;
    let mut small_table = SymTable::new();
    for i in 0..small {
        small_table.insert(i * 0x10, sym("s"));
    }
    let mut big_table = SymTable::new();
    for i in 0..big {
        big_table.insert(i * 0x10, sym("s"));
    }
    let probes: u64 = 20000;
    let time_lookups = |t: &SymTable, n: u64| {
        let mut best = std::time::Duration::MAX;
        for _round in 0..3u32 {
            let start = std::time::Instant::now();
            let mut hits: u64 = 0;
            for p in 0..probes {
                let addr = (p * 7919) % (n * 0x10);
                if find_sym(addr, t).is_some() {
                    hits += 1;
                }
            }
            assert_eq!(hits, probes);
            let took = start.elapsed();
            if took < best {
                best = took;
            }
        }
        best
    };
    // Warm both tables up before timing.
    let _ = time_lookups(&small_table, small);
    let t_small = time_lookups(&small_table, small);
    let t_big = time_lookups(&big_table, big);
    // Logarithmic growth: ten times the entries may not cost five times
    // the lookup time (a linear scan would cost about ten times).
    assert!(t_big < t_small * 5 + std::time::Duration::from_millis(50));
}
