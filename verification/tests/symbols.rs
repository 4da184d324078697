use doctor::symbol::{Symbol, SymbolSet};
use doctor::text::{rank_bytes, Rank};

fn sym(addr: u64, name: &str) -> Symbol {
    Symbol { addr, name: Some(name.to_string()) }
}

#[test]
fn floor_at_exact_address_returns_that_symbol() {
    let mut set = SymbolSet::new();
    set.insert(sym(0x400100, "main"));
    set.insert(sym(0x4001f0, "work"));
    assert_eq!(set.floor(0x4001f0), Some(&sym(0x4001f0, "work")));
    assert_eq!(set.floor(0x400100), Some(&sym(0x400100, "main")));
}

#[test]
fn floor_below_smallest_is_none() {
    let mut set = SymbolSet::new();
    set.insert(sym(0x400100, "main"));
    assert_eq!(set.floor(0x4000ff), None);
    assert_eq!(SymbolSet::new().floor(0), None);
}

#[test]
fn symbols_rank_by_address_then_name() {
    assert_eq!(sym(1, "b").rank(&sym(2, "a")), Rank::Before);
    assert_eq!(sym(2, "a").rank(&sym(2, "b")), Rank::Before);
    assert_eq!(sym(2, "b").rank(&sym(2, "a")), Rank::After);
    assert_eq!(sym(2, "a").rank(&sym(2, "a")), Rank::Same);
    assert_eq!(Symbol { addr: 2, name: None }.rank(&sym(2, "")), Rank::Before);
    assert_eq!(sym(2, "").rank(&Symbol { addr: 2, name: None }), Rank::After);
    assert_eq!(sym(2, "ab").rank(&sym(2, "abc")), Rank::Before);
    assert_eq!(sym(2, "\u{e9}").rank(&sym(2, "z")), Rank::After);
}

#[test]
fn rank_agrees_with_the_derived_order() {
    let all = vec![
        Symbol { addr: 0, name: None },
        sym(0, ""),
        sym(0, "a"),
        sym(0, "ab"),
        sym(0, "b"),
        Symbol { addr: 1, name: None },
        sym(1, "\u{7f}"),
        sym(1, "\u{80}"),
        sym(u64::MAX, "a"),
    ];
    for (i, a) in all.iter().enumerate() {
        for (j, b) in all.iter().enumerate() {
            let want = if i < j {
                Rank::Before
            } else if i > j {
                Rank::After
            } else {
                Rank::Same
            };
            assert_eq!(a.rank(b), want);
            assert_eq!(a < b, i < j);
        }
    }
}

#[test]
fn rank_bytes_is_lexicographic() {
    assert_eq!(rank_bytes(b"", b""), Rank::Same);
    assert_eq!(rank_bytes(b"", b"a"), Rank::Before);
    assert_eq!(rank_bytes(b"a", b""), Rank::After);
    assert_eq!(rank_bytes(b"abc", b"abd"), Rank::Before);
    assert_eq!(rank_bytes(b"abd", b"abc"), Rank::After);
    assert_eq!(rank_bytes(b"ab", b"abc"), Rank::Before);
    assert_eq!(rank_bytes(b"\xff", b"\x00\xff"), Rank::After);
}

#[test]
fn insert_keeps_order_and_drops_repeats() {
    let mut set = SymbolSet::new();
    set.insert(sym(30, "c"));
    set.insert(sym(10, "a"));
    set.insert(sym(20, "b"));
    set.insert(sym(10, "a"));
    set.insert(sym(10, "aa"));
    assert_eq!(set.len(), 4);
    assert_eq!(set.get(0), &sym(10, "a"));
    assert_eq!(set.get(1), &sym(10, "aa"));
    assert_eq!(set.get(2), &sym(20, "b"));
    assert_eq!(set.get(3), &sym(30, "c"));
    assert!(set.contains(&sym(20, "b")));
    assert!(!set.contains(&sym(20, "c")));
    assert!(!set.contains(&Symbol { addr: 20, name: None }));
}

#[test]
fn floor_with_shared_address_takes_the_last_in_order() {
    let mut set = SymbolSet::new();
    set.insert(Symbol { addr: 10, name: None });
    set.insert(sym(10, "alias"));
    set.insert(sym(10, "zeta"));
    set.insert(sym(5, "low"));
    assert_eq!(set.floor(10), Some(&sym(10, "zeta")));
    assert_eq!(set.floor(11), Some(&sym(10, "zeta")));
    assert_eq!(set.floor(9), Some(&sym(5, "low")));
    assert_eq!(set.floor(4), None);
}

#[test]
fn symbol_text_has_name_and_padded_address() {
    assert_eq!(sym(0x3321b, "main").to_string(), "main (f_0x000000000003321B)");
    assert_eq!(Symbol { addr: u64::MAX, name: None }.to_string(), "Unnamed (f_0xFFFFFFFFFFFFFFFF)");
    assert_eq!(sym(0, "").to_string(), " (f_0x0000000000000000)");
    assert_eq!(sym(0xabcdef0123456789, "x").to_string(), "x (f_0xABCDEF0123456789)");
}

#[test]
fn duplicate_copies_both_fields() {
    let s = sym(7, "seven");
    assert_eq!(s.duplicate(), s);
    let n = Symbol { addr: 8, name: None };
    assert_eq!(n.duplicate(), n);
}
