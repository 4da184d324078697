//! Function symbols and the ordered set that floor lookup runs on.

use crate::text::{
    digit_char, lemma_lex_asymmetric, lemma_lex_total, lemma_lex_transitive, lex_less, push_char,
    rank_bytes, Rank,
};
use vstd::prelude::*;
use vstd::string::*;
use vstd::utf8::*;

verus! {

/// A function's entry address and its (already demangled) name, if it has one.
#[derive(Clone, Debug, PartialEq, Eq, PartialOrd, Ord, Hash)]
pub struct Symbol {
    pub addr: u64,
    pub name: Option<String>,
}

/// The mathematical value of a [`Symbol`].
pub struct SymbolView {
    pub addr: u64,
    pub name: Option<Seq<char>>,
}

impl View for Symbol {
    type V = SymbolView;

    open spec fn view(&self) -> SymbolView {
        SymbolView {
            addr: self.addr,
            name: match self.name {
                Some(n) => Some(n@),
                None => None,
            },
        }
    }
}

/// Order of names: no name comes first, then names by their UTF-8 bytes.
pub open spec fn name_less(a: Option<Seq<char>>, b: Option<Seq<char>>) -> bool {
    match (a, b) {
        (None, Some(_)) => true,
        (Some(x), Some(y)) => lex_less(encode_utf8(x), encode_utf8(y)),
        _ => false,
    }
}

/// Order of symbols: by address, ties broken by name.
pub open spec fn symbol_less(a: SymbolView, b: SymbolView) -> bool {
    a.addr < b.addr || (a.addr == b.addr && name_less(a.name, b.name))
}

/// The rank of `a` against `b` in the order of symbols.
pub open spec fn symbol_rank(a: SymbolView, b: SymbolView) -> Rank {
    if a == b {
        Rank::Same
    } else if symbol_less(a, b) {
        Rank::Before
    } else {
        Rank::After
    }
}

/// A sequence in strictly ascending order of symbols (so nothing occurs twice).
pub open spec fn strictly_sorted(s: Seq<SymbolView>) -> bool {
    forall|i: int, j: int| 0 <= i < j < s.len() ==> symbol_less(#[trigger] s[i], #[trigger] s[j])
}

/// The last symbol of `s` whose address does not exceed `addr`.
pub open spec fn floor_of(s: Seq<SymbolView>, addr: u64) -> Option<SymbolView>
    decreases s.len(),
{
    if s.len() == 0 {
        None
    } else if s.last().addr <= addr {
        Some(s.last())
    } else {
        floor_of(s.drop_last(), addr)
    }
}

/// The order of symbols is transitive.
pub proof fn lemma_symbol_less_transitive(a: SymbolView, b: SymbolView, c: SymbolView)
    requires
        symbol_less(a, b),
        symbol_less(b, c),
    ensures
        symbol_less(a, c),
{
    if a.addr == b.addr && b.addr == c.addr {
        match (a.name, b.name, c.name) {
            (Some(x), Some(y), Some(z)) => {
                lemma_lex_transitive(encode_utf8(x), encode_utf8(y), encode_utf8(z));
            },
            _ => {},
        }
    }
}

/// No symbol comes before itself, and two symbols are never ordered both ways.
pub proof fn lemma_symbol_less_asymmetric(a: SymbolView, b: SymbolView)
    requires
        symbol_less(a, b),
    ensures
        !symbol_less(b, a),
        a != b,
{
    if a.addr == b.addr {
        match (a.name, b.name) {
            (Some(x), Some(y)) => {
                lemma_lex_asymmetric(encode_utf8(x), encode_utf8(y));
            },
            _ => {},
        }
    }
}

/// Two different symbols are ordered one way or the other.
pub proof fn lemma_symbol_less_total(a: SymbolView, b: SymbolView)
    ensures
        a == b || symbol_less(a, b) || symbol_less(b, a),
{
    if a.addr == b.addr {
        match (a.name, b.name) {
            (Some(x), Some(y)) => {
                lemma_lex_total(encode_utf8(x), encode_utf8(y));
                if encode_utf8(x) == encode_utf8(y) {
                    encode_utf8_decode_utf8(x);
                    encode_utf8_decode_utf8(y);
                }
            },
            _ => {},
        }
    }
}

/// In a sequence sorted by address, where everything before `k` is at or below
/// `addr` and everything from `k` on is above it, the floor is the element
/// just before `k`.
pub proof fn lemma_floor_at_split(s: Seq<SymbolView>, addr: u64, k: int)
    requires
        0 <= k <= s.len(),
        forall|i: int| 0 <= i < k ==> (#[trigger] s[i]).addr <= addr,
        forall|i: int| k <= i < s.len() ==> (#[trigger] s[i]).addr > addr,
    ensures
        floor_of(s, addr) == if k == 0 {
            None
        } else {
            Some(s[k - 1])
        },
    decreases s.len(),
{
    if s.len() > k {
        lemma_floor_at_split(s.drop_last(), addr, k);
    }
}

/// Two sequences in strictly ascending order that hold the same symbols are
/// the same sequence.
pub proof fn lemma_sorted_same_set(a: Seq<SymbolView>, b: Seq<SymbolView>)
    requires
        strictly_sorted(a),
        strictly_sorted(b),
        a.to_set() == b.to_set(),
    ensures
        a == b,
    decreases a.len(),
{
    if a.len() == 0 {
        if b.len() > 0 {
            assert(b.contains(b[0]));
            assert(a.to_set().contains(b[0]));
        }
        assert(a =~= b);
    } else {
        let x = a.last();
        assert(a.contains(x));
        assert(b.to_set().contains(x));
        let j = choose|j: int| 0 <= j < b.len() && b[j] == x;
        if j < b.len() - 1 {
            let y = b.last();
            assert(symbol_less(b[j], b[b.len() - 1]));
            assert(b.contains(y));
            assert(a.to_set().contains(y));
            let k = choose|k: int| 0 <= k < a.len() && a[k] == y;
            if k < a.len() - 1 {
                assert(symbol_less(a[k], a[a.len() - 1]));
            }
            lemma_symbol_less_asymmetric(x, y);
        }
        let a1 = a.drop_last();
        let b1 = b.drop_last();
        assert forall|v: SymbolView| a1.to_set().contains(v) == b1.to_set().contains(v) by {
            if a1.contains(v) {
                let i = choose|i: int| 0 <= i < a1.len() && a1[i] == v;
                assert(symbol_less(a[i], a[a.len() - 1]));
                lemma_symbol_less_asymmetric(v, x);
                assert(a.contains(v));
                assert(b.to_set().contains(v));
                let m = choose|m: int| 0 <= m < b.len() && b[m] == v;
                assert(b1[m] == v);
            }
            if b1.contains(v) {
                let i = choose|i: int| 0 <= i < b1.len() && b1[i] == v;
                assert(symbol_less(b[i], b[b.len() - 1]));
                lemma_symbol_less_asymmetric(v, x);
                assert(b.contains(v));
                assert(a.to_set().contains(v));
                let m = choose|m: int| 0 <= m < a.len() && a[m] == v;
                assert(a1[m] == v);
            }
        }
        assert(a1.to_set() =~= b1.to_set());
        assert forall|i: int, j: int| 0 <= i < j < a1.len() implies symbol_less(
            #[trigger] a1[i],
            #[trigger] a1[j],
        ) by {
            assert(symbol_less(a[i], a[j]));
        }
        assert forall|i: int, j: int| 0 <= i < j < b1.len() implies symbol_less(
            #[trigger] b1[i],
            #[trigger] b1[j],
        ) by {
            assert(symbol_less(b[i], b[j]));
        }
        lemma_sorted_same_set(a1, b1);
        assert(a =~= a1.push(x));
        assert(b =~= b1.push(x));
    }
}

/// The character that stands for the digit `d` in upper case.
pub open spec fn upper_digit_char(d: nat) -> char {
    if d < 10 {
        digit_char(d)
    } else {
        ((55 + d) as u8) as char
    }
}

/// The last `width` hexadecimal digits of `n` in upper case, zeros in front.
pub open spec fn padded_hex_text(n: nat, width: nat) -> Seq<char>
    decreases width,
{
    if width == 0 {
        Seq::empty()
    } else {
        padded_hex_text(n / 16, (width - 1) as nat).push(upper_digit_char(n % 16))
    }
}

/// How a symbol is written: its name, or `Unnamed`, and its address in
/// sixteen hexadecimal digits.
pub open spec fn symbol_text(s: SymbolView) -> Seq<char> {
    (match s.name {
        Some(n) => n,
        None => "Unnamed"@,
    }) + " (f_0x"@ + padded_hex_text(s.addr as nat, 16) + ")"@
}

fn push_padded_hex(out: &mut String, n: u64, width: u8)
    ensures
        final(out)@ == old(out)@ + padded_hex_text(n as nat, width as nat),
    decreases width,
{
    if width == 0 {
        assert(out@ =~= old(out)@ + padded_hex_text(n as nat, 0));
        return ;
    }
    push_padded_hex(out, n / 16, width - 1);
    let d: u8 = (n % 16) as u8;
    let c = if d < 10 {
        (48u8 + d) as char
    } else {
        (55u8 + d) as char
    };
    push_char(out, c);
    assert(out@ =~= old(out)@ + padded_hex_text(n as nat, width as nat));
}

impl Symbol {
    /// The symbol as text.
    pub fn to_string(&self) -> (res: String)
        ensures
            res@ == symbol_text(self@),
    {
        let mut out = match &self.name {
            Some(n) => n.clone(),
            None => String::from_str("Unnamed"),
        };
        out.append(" (f_0x");
        push_padded_hex(&mut out, self.addr, 16);
        out.append(")");
        out
    }

    /// Compares two symbols by address, then by name.
    pub fn rank(&self, other: &Symbol) -> (res: Rank)
        ensures
            res == symbol_rank(self@, other@),
    {
        proof {
            lemma_symbol_less_total(self@, other@);
        }
        if self.addr < other.addr {
            Rank::Before
        } else if self.addr > other.addr {
            Rank::After
        } else {
            match (&self.name, &other.name) {
                (None, None) => Rank::Same,
                (None, Some(_)) => Rank::Before,
                (Some(_), None) => Rank::After,
                (Some(x), Some(y)) => {
                    let r = rank_bytes(x.as_str().as_bytes(), y.as_str().as_bytes());
                    proof {
                        if encode_utf8(x@) == encode_utf8(y@) {
                            encode_utf8_decode_utf8(x@);
                            encode_utf8_decode_utf8(y@);
                        }
                    }
                    r
                },
            }
        }
    }

    /// A copy of this symbol.
    pub fn duplicate(&self) -> (res: Symbol)
        ensures
            res@ == self@,
    {
        Symbol {
            addr: self.addr,
            name: match &self.name {
                Some(n) => Some(n.clone()),
                None => None,
            },
        }
    }
}

/// A set of symbols kept in ascending order, so that floor lookup is a binary
/// search.
#[derive(Clone, Debug)]
pub struct SymbolSet {
    items: Vec<Symbol>,
}

impl View for SymbolSet {
    type V = Seq<SymbolView>;

    closed spec fn view(&self) -> Seq<SymbolView> {
        Seq::new(self.items@.len(), |i: int| self.items@[i]@)
    }
}

impl SymbolSet {
    /// The invariant: ascending order without repetition.
    pub open spec fn wf(&self) -> bool {
        strictly_sorted(self@)
    }

    /// The empty set.
    pub fn new() -> (res: SymbolSet)
        ensures
            res@ == Seq::<SymbolView>::empty(),
            res.wf(),
    {
        let res = SymbolSet { items: Vec::new() };
        assert(res@ =~= Seq::<SymbolView>::empty());
        res
    }

    /// How many symbols the set holds.
    pub fn len(&self) -> (n: usize)
        ensures
            n == self@.len(),
    {
        self.items.len()
    }

    /// The symbol at position `i` in ascending order.
    pub fn get(&self, i: usize) -> (res: &Symbol)
        requires
            i < self@.len(),
        ensures
            res@ == self@[i as int],
    {
        &self.items[i]
    }

    /// Where `key` stands, or would stand, in the order.
    fn position(&self, key: &Symbol) -> (res: (usize, bool))
        requires
            self.wf(),
        ensures
            res.0 <= self@.len(),
            forall|i: int| 0 <= i < res.0 ==> symbol_less(#[trigger] self@[i], key@),
            res.1 ==> res.0 < self@.len() && self@[res.0 as int] == key@,
            !res.1 ==> forall|i: int|
                res.0 <= i < self@.len() ==> symbol_less(key@, #[trigger] self@[i]),
    {
        let mut lo: usize = 0;
        let mut hi: usize = self.items.len();
        while lo < hi
            invariant
                self.wf(),
                lo <= hi <= self@.len(),
                self@.len() == self.items@.len(),
                forall|i: int| 0 <= i < lo ==> symbol_less(#[trigger] self@[i], key@),
                forall|i: int| hi <= i < self@.len() ==> symbol_less(key@, #[trigger] self@[i]),
            decreases hi - lo,
        {
            let mid = lo + (hi - lo) / 2;
            let r = self.items[mid].rank(key);
            assert(self.items@[mid as int]@ == self@[mid as int]);
            match r {
                Rank::Same => {
                    proof {
                        assert forall|i: int| 0 <= i < mid implies symbol_less(
                            #[trigger] self@[i],
                            key@,
                        ) by {
                            assert(symbol_less(self@[i], self@[mid as int]));
                        }
                    }
                    return (mid, true);
                },
                Rank::Before => {
                    proof {
                        assert forall|i: int| 0 <= i < mid + 1 implies symbol_less(
                            #[trigger] self@[i],
                            key@,
                        ) by {
                            if i < mid {
                                assert(symbol_less(self@[i], self@[mid as int]));
                                lemma_symbol_less_transitive(self@[i], self@[mid as int], key@);
                            }
                        }
                    }
                    lo = mid + 1;
                },
                Rank::After => {
                    proof {
                        lemma_symbol_less_total(self@[mid as int], key@);
                        assert forall|i: int| mid <= i < self@.len() implies symbol_less(
                            key@,
                            #[trigger] self@[i],
                        ) by {
                            if i > mid {
                                assert(symbol_less(self@[mid as int], self@[i]));
                                lemma_symbol_less_transitive(key@, self@[mid as int], self@[i]);
                            }
                        }
                    }
                    hi = mid;
                },
            }
        }
        (lo, false)
    }

    /// Whether the set holds `key`.
    pub fn contains(&self, key: &Symbol) -> (res: bool)
        requires
            self.wf(),
        ensures
            res == self@.contains(key@),
    {
        let (at, found) = self.position(key);
        proof {
            if !found && self@.contains(key@) {
                let i = choose|i: int| 0 <= i < self@.len() && self@[i] == key@;
                if i < at {
                    lemma_symbol_less_asymmetric(self@[i], key@);
                } else {
                    lemma_symbol_less_asymmetric(key@, self@[i]);
                }
            }
        }
        found
    }

    /// Adds `sym` to the set; a symbol with the same address and name that is
    /// already there is kept as it is.
    pub fn insert(&mut self, sym: Symbol)
        requires
            old(self).wf(),
        ensures
            final(self).wf(),
            final(self)@.to_set() == old(self)@.to_set().insert(sym@),
            final(self)@.len() == old(self)@.len() + if old(self)@.contains(sym@) {
                0int
            } else {
                1int
            },
    {
        let (at, found) = self.position(&sym);
        let ghost before = self@;
        if found {
            assert(before.contains(sym@));
            assert(before.to_set() =~= before.to_set().insert(sym@));
        } else {
            proof {
                if before.contains(sym@) {
                    let i = choose|i: int| 0 <= i < before.len() && before[i] == sym@;
                    if i < at {
                        lemma_symbol_less_asymmetric(before[i], sym@);
                    } else {
                        lemma_symbol_less_asymmetric(sym@, before[i]);
                    }
                }
            }
            let ghost v = sym@;
            self.items.insert(at, sym);
            proof {
                let after = self@;
                assert(after =~= before.insert(at as int, v));
                assert forall|i: int, j: int| 0 <= i < j < after.len() implies symbol_less(
                    #[trigger] after[i],
                    #[trigger] after[j],
                ) by {
                    if j < at {
                        assert(symbol_less(before[i], before[j]));
                    } else if j == at {
                        assert(symbol_less(before[i], v));
                    } else if i < at {
                        assert(symbol_less(before[i], v));
                        assert(symbol_less(v, before[j - 1]));
                        lemma_symbol_less_transitive(before[i], v, before[j - 1]);
                    } else if i == at {
                        assert(symbol_less(v, before[j - 1]));
                    } else {
                        assert(symbol_less(before[i - 1], before[j - 1]));
                    }
                }
                assert forall|x: SymbolView| after.to_set().contains(x) == before.to_set().insert(
                    v,
                ).contains(x) by {
                    if after.contains(x) {
                        let i = choose|i: int| 0 <= i < after.len() && after[i] == x;
                        if i < at {
                            assert(before[i] == x);
                        } else if i > at {
                            assert(before[i - 1] == x);
                        }
                    }
                    if before.contains(x) {
                        let i = choose|i: int| 0 <= i < before.len() && before[i] == x;
                        if i < at {
                            assert(after[i] == x);
                        } else {
                            assert(after[i + 1] == x);
                        }
                    }
                    if x == v {
                        assert(after[at as int] == x);
                    }
                }
                assert(after.to_set() =~= before.to_set().insert(v));
            }
        }
    }

    /// Floor lookup: the last symbol in order whose address does not exceed
    /// `addr`, if there is one.
    pub fn floor(&self, addr: u64) -> (res: Option<&Symbol>)
        requires
            self.wf(),
        ensures
            res.is_some() == floor_of(self@, addr).is_some(),
            res matches Some(s) ==> Some(s@) == floor_of(self@, addr),
    {
        let mut lo: usize = 0;
        let mut hi: usize = self.items.len();
        while lo < hi
            invariant
                self.wf(),
                lo <= hi <= self@.len(),
                self@.len() == self.items@.len(),
                forall|i: int| 0 <= i < lo ==> (#[trigger] self@[i]).addr <= addr,
                forall|i: int| hi <= i < self@.len() ==> (#[trigger] self@[i]).addr > addr,
            decreases hi - lo,
        {
            let mid = lo + (hi - lo) / 2;
            assert(self.items@[mid as int]@ == self@[mid as int]);
            if self.items[mid].addr <= addr {
                proof {
                    assert forall|i: int| 0 <= i < mid + 1 implies (#[trigger] self@[i]).addr
                        <= addr by {
                        if i < mid {
                            assert(symbol_less(self@[i], self@[mid as int]));
                        }
                    }
                }
                lo = mid + 1;
            } else {
                proof {
                    assert forall|i: int| mid <= i < self@.len() implies (#[trigger] self@[i]).addr
                        > addr by {
                        if i > mid {
                            assert(symbol_less(self@[mid as int], self@[i]));
                        }
                    }
                }
                hi = mid;
            }
        }
        proof {
            lemma_floor_at_split(self@, addr, lo as int);
        }
        if lo == 0 {
            None
        } else {
            assert(self.items@[lo - 1]@ == self@[lo - 1]);
            Some(&self.items[lo - 1])
        }
    }
}

} // verus!
