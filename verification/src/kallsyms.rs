//! The kernel's symbol table: an ordered map from address to name, read from
//! the text that the kernel exports, with floor lookup.

use crate::error::TranslateError;
use crate::symbol::Symbol;
use crate::text::{decode_lossy, lossy_text};
use vstd::prelude::*;
use vstd::slice::slice_subrange;

verus! {

/// Blank, tab, carriage return and the other ASCII white space but the line
/// feed, which ends a line.
pub open spec fn is_space(b: u8) -> bool {
    b == 0x20 || b == 0x09 || b == 0x0b || b == 0x0c || b == 0x0d
}

/// The first position at or after `from` that holds `b`, or the length.
pub open spec fn next_byte(s: Seq<u8>, from: int, b: u8) -> int
    decreases s.len() - from,
{
    if from < 0 || from >= s.len() {
        s.len() as int
    } else if s[from] == b {
        from
    } else {
        next_byte(s, from + 1, b)
    }
}

/// The first position at or after `from` that holds white space (if `space`)
/// or anything else (if not), or the length.
pub open spec fn next_kind(s: Seq<u8>, from: int, space: bool) -> int
    decreases s.len() - from,
{
    if from < 0 || from >= s.len() {
        s.len() as int
    } else if is_space(s[from]) == space {
        from
    } else {
        next_kind(s, from + 1, space)
    }
}

/// The lines of `s` from position `from` on. A line ends at a line feed or at
/// the end of the text; what follows the last line feed is a line only if it
/// is not empty.
pub open spec fn lines_from(s: Seq<u8>, from: int) -> Seq<Seq<u8>>
    decreases s.len() - from + 1,
    via lines_from_decreases
{
    if from < 0 || from >= s.len() {
        Seq::empty()
    } else {
        let end = next_byte(s, from, 0x0a);
        seq![s.subrange(from, end)] + lines_from(s, end + 1)
    }
}

#[via_fn]
proof fn lines_from_decreases(s: Seq<u8>, from: int) {
    if 0 <= from <= s.len() {
        lemma_next_byte_bounds(s, from, 0x0a);
    }
}

proof fn lemma_next_byte_bounds(s: Seq<u8>, from: int, b: u8)
    requires
        0 <= from <= s.len(),
    ensures
        from <= next_byte(s, from, b) <= s.len(),
    decreases s.len() - from,
{
    if from < s.len() && s[from] != b {
        lemma_next_byte_bounds(s, from + 1, b);
    }
}

/// The bounds of field `k` (from zero) of a line, counting from position
/// `from`. Fields are the runs of bytes between white space.
pub open spec fn field_at(line: Seq<u8>, from: int, k: nat) -> Option<(int, int)>
    decreases k,
{
    let start = next_kind(line, from, false);
    if start >= line.len() {
        None
    } else {
        let end = next_kind(line, start, true);
        if k == 0 {
            Some((start, end))
        } else {
            field_at(line, end, (k - 1) as nat)
        }
    }
}

/// Field `k` (from zero) of a line.
pub open spec fn field(line: Seq<u8>, k: nat) -> Option<Seq<u8>> {
    match field_at(line, 0, k) {
        Some((start, end)) => Some(line.subrange(start, end)),
        None => None,
    }
}

/// The value of a hexadecimal digit in either case.
pub open spec fn hex_digit(b: u8) -> Option<int> {
    if 0x30 <= b <= 0x39 {
        Some(b - 0x30)
    } else if 0x61 <= b <= 0x66 {
        Some(b - 0x61 + 10)
    } else if 0x41 <= b <= 0x46 {
        Some(b - 0x41 + 10)
    } else {
        None
    }
}

/// Whether every byte is a hexadecimal digit.
pub open spec fn all_hex(s: Seq<u8>) -> bool {
    forall|i: int| 0 <= i < s.len() ==> hex_digit(#[trigger] s[i]).is_some()
}

/// The number that a string of hexadecimal digits denotes.
pub open spec fn hex_number(s: Seq<u8>) -> int
    decreases s.len(),
{
    if s.len() == 0 {
        0
    } else {
        hex_number(s.drop_last()) * 16 + match hex_digit(s.last()) {
            Some(d) => d,
            None => 0,
        }
    }
}

/// The address that a field denotes: it must be one or more hexadecimal
/// digits, and their value must fit in 64 bits.
pub open spec fn hex_value(s: Seq<u8>) -> Option<u64> {
    if s.len() > 0 && all_hex(s) && hex_number(s) <= u64::MAX {
        Some(hex_number(s) as u64)
    } else {
        None
    }
}

/// The entry that a line `<hex-addr> <type> <name> [module]` gives: the
/// address of its first field and the text of its third. `None` where the line
/// has fewer than three fields or its first field is no address.
pub open spec fn parsed_line(line: Seq<u8>) -> Option<(u64, Seq<char>)> {
    match (field(line, 0), field(line, 2)) {
        (Some(a), Some(n)) => match hex_value(a) {
            Some(v) => Some((v, lossy_text(n))),
            None => None,
        },
        _ => None,
    }
}

/// The table that the lines give, a later line replacing an earlier one with
/// the same address.
pub open spec fn table_of(lines: Seq<Seq<u8>>) -> Map<u64, Seq<char>>
    decreases lines.len(),
{
    if lines.len() == 0 {
        Map::empty()
    } else {
        let rest = table_of(lines.drop_last());
        match parsed_line(lines.last()) {
            Some((a, n)) => rest.insert(a, n),
            None => rest,
        }
    }
}

/// Whether `a` is the greatest address of the table that does not exceed `ip`.
pub open spec fn is_floor_key(table: Map<u64, Seq<char>>, ip: u64, a: u64) -> bool {
    table.dom().contains(a) && a <= ip && forall|k: u64|
        table.dom().contains(k) && k <= ip ==> k <= a
}

/// What floor lookup of `ip` in a table must give: the entry with the
/// greatest address that does not exceed `ip`, or nothing where every address
/// exceeds it.
pub open spec fn is_floor(table: Map<u64, Seq<char>>, ip: u64, found: Option<(u64, Seq<char>)>) -> bool {
    match found {
        Some((a, n)) => is_floor_key(table, ip, a) && table[a] == n,
        None => forall|k: u64| table.dom().contains(k) ==> k > ip,
    }
}

/// Whether every line gives an entry.
pub open spec fn all_lines_valid(lines: Seq<Seq<u8>>) -> bool {
    forall|i: int| 0 <= i < lines.len() ==> parsed_line(#[trigger] lines[i]).is_some()
}

/// Whether line `k` is the first that gives no entry.
pub open spec fn first_invalid(lines: Seq<Seq<u8>>, k: int) -> bool {
    &&& 0 <= k < lines.len()
    &&& parsed_line(lines[k]).is_none()
    &&& forall|i: int| 0 <= i < k ==> parsed_line(#[trigger] lines[i]).is_some()
}

/// One entry of the kernel's symbol table.
#[derive(Clone, Debug, PartialEq, Eq)]
pub struct KernelSymbol {
    pub addr: u64,
    pub name: String,
}

/// The kernel's symbol table, in ascending order of address.
#[derive(Clone, Debug)]
pub struct KernelSymbols {
    entries: Vec<KernelSymbol>,
}

/// The entries as pairs of address and name.
pub open spec fn pairs(entries: Seq<KernelSymbol>) -> Seq<(u64, Seq<char>)> {
    Seq::new(entries.len(), |i: int| (entries[i].addr, entries[i].name@))
}

/// Strictly ascending addresses.
pub open spec fn ascending(s: Seq<(u64, Seq<char>)>) -> bool {
    forall|i: int, j: int| 0 <= i < j < s.len() ==> (#[trigger] s[i]).0 < (#[trigger] s[j]).0
}

/// The map that a list of entries stands for.
pub open spec fn as_map(s: Seq<(u64, Seq<char>)>) -> Map<u64, Seq<char>> {
    Map::new(
        |a: u64| exists|i: int| 0 <= i < s.len() && (#[trigger] s[i]).0 == a,
        |a: u64| s[choose|i: int| 0 <= i < s.len() && (#[trigger] s[i]).0 == a].1,
    )
}

proof fn lemma_as_map_entry(s: Seq<(u64, Seq<char>)>, i: int)
    requires
        ascending(s),
        0 <= i < s.len(),
    ensures
        as_map(s).dom().contains(s[i].0),
        as_map(s)[s[i].0] == s[i].1,
{
    let a = s[i].0;
    let c = choose|k: int| 0 <= k < s.len() && (#[trigger] s[k]).0 == a;
    if c < i {
        assert(s[c].0 < s[i].0);
    } else if i < c {
        assert(s[i].0 < s[c].0);
    }
}

impl View for KernelSymbols {
    type V = Map<u64, Seq<char>>;

    closed spec fn view(&self) -> Map<u64, Seq<char>> {
        as_map(pairs(self.entries@))
    }
}

impl KernelSymbols {
    /// The invariant of the type: ascending addresses, each once.
    pub closed spec fn wf(&self) -> bool {
        ascending(pairs(self.entries@))
    }

    /// The empty table.
    pub fn new() -> (res: KernelSymbols)
        ensures
            res.wf(),
            res@ == Map::<u64, Seq<char>>::empty(),
    {
        let res = KernelSymbols { entries: Vec::new() };
        assert(res@ =~= Map::<u64, Seq<char>>::empty());
        res
    }

    /// How many addresses the table holds.
    pub fn len(&self) -> (n: usize)
        requires
            self.wf(),
        ensures
            n == self@.dom().len(),
            self@.dom().finite(),
    {
        proof {
            lemma_dom_len(pairs(self.entries@));
        }
        self.entries.len()
    }

    /// The number of entries at the start of the table whose address does not
    /// exceed `ip`.
    fn upper_bound(&self, ip: u64) -> (k: usize)
        requires
            self.wf(),
        ensures
            k <= self.entries@.len(),
            forall|i: int| 0 <= i < k ==> (#[trigger] self.entries@[i]).addr <= ip,
            forall|i: int| k <= i < self.entries@.len() ==> (#[trigger] self.entries@[i]).addr > ip,
    {
        let mut lo: usize = 0;
        let mut hi: usize = self.entries.len();
        let ghost s = pairs(self.entries@);
        while lo < hi
            invariant
                self.wf(),
                s == pairs(self.entries@),
                lo <= hi <= self.entries@.len(),
                forall|i: int| 0 <= i < lo ==> (#[trigger] self.entries@[i]).addr <= ip,
                forall|i: int|
                    hi <= i < self.entries@.len() ==> (#[trigger] self.entries@[i]).addr > ip,
            decreases hi - lo,
        {
            let mid = lo + (hi - lo) / 2;
            if self.entries[mid].addr <= ip {
                assert forall|i: int| 0 <= i < mid + 1 implies (#[trigger] self.entries@[i]).addr
                    <= ip by {
                    if i < mid {
                        assert(s[i].0 < s[mid as int].0);
                    }
                }
                lo = mid + 1;
            } else {
                assert forall|i: int| mid <= i < self.entries@.len() implies (
                #[trigger] self.entries@[i]).addr > ip by {
                    if i > mid {
                        assert(s[mid as int].0 < s[i].0);
                    }
                }
                hi = mid;
            }
        }
        lo
    }

    /// Enters `name` under `addr`, in place of what was there.
    pub fn insert(&mut self, addr: u64, name: String)
        requires
            old(self).wf(),
        ensures
            final(self).wf(),
            final(self)@ == old(self)@.insert(addr, name@),
    {
        let k = self.upper_bound(addr);
        let ghost before = pairs(self.entries@);
        let ghost text = name@;
        if k > 0 && self.entries[k - 1].addr == addr {
            self.entries[k - 1] = KernelSymbol { addr, name };
            proof {
                let after = pairs(self.entries@);
                assert(after =~= before.update(k - 1, (addr, text)));
                assert forall|i: int, j: int| 0 <= i < j < after.len() implies (
                #[trigger] after[i]).0 < (#[trigger] after[j]).0 by {
                    assert(before[i].0 < before[j].0);
                }
                assert forall|a: u64| as_map(after).dom().contains(a) == as_map(before).insert(
                    addr,
                    text,
                ).dom().contains(a) by {
                    if as_map(after).dom().contains(a) {
                        let i = choose|i: int| 0 <= i < after.len() && (#[trigger] after[i]).0 == a;
                        assert(before[i].0 == a);
                    }
                    if as_map(before).dom().contains(a) {
                        let i = choose|i: int|
                            0 <= i < before.len() && (#[trigger] before[i]).0 == a;
                        assert(after[i].0 == a);
                    }
                    if a == addr {
                        assert(after[k - 1].0 == a);
                    }
                }
                assert forall|a: u64| as_map(after).dom().contains(a) implies as_map(after)[a]
                    == as_map(before).insert(addr, text)[a] by {
                    let i = choose|i: int| 0 <= i < after.len() && (#[trigger] after[i]).0 == a;
                    lemma_as_map_entry(after, i);
                    if a != addr {
                        assert(before[i] == after[i]);
                        lemma_as_map_entry(before, i);
                    } else {
                        lemma_as_map_entry(after, k - 1);
                    }
                }
                assert(as_map(after) =~= as_map(before).insert(addr, text));
            }
        } else {
            self.entries.insert(k, KernelSymbol { addr, name });
            proof {
                let after = pairs(self.entries@);
                assert(after =~= before.insert(k as int, (addr, text)));
                assert forall|i: int, j: int| 0 <= i < j < after.len() implies (
                #[trigger] after[i]).0 < (#[trigger] after[j]).0 by {
                    if j < k {
                        assert(before[i].0 < before[j].0);
                    } else if j == k {
                        assert(old(self).entries@[i].addr <= addr);
                        if i == k - 1 {
                        } else {
                            assert(before[i].0 < before[k - 1].0);
                        }
                    } else if i < k {
                        assert(before[i].0 <= addr);
                        assert(old(self).entries@[j - 1].addr > addr);
                    } else if i == k {
                        assert(old(self).entries@[j - 1].addr > addr);
                    } else {
                        assert(before[i - 1].0 < before[j - 1].0);
                    }
                }
                assert forall|a: u64| as_map(after).dom().contains(a) == as_map(before).insert(
                    addr,
                    text,
                ).dom().contains(a) by {
                    if as_map(after).dom().contains(a) {
                        let i = choose|i: int| 0 <= i < after.len() && (#[trigger] after[i]).0 == a;
                        if i < k {
                            assert(before[i].0 == a);
                        } else if i > k {
                            assert(before[i - 1].0 == a);
                        }
                    }
                    if as_map(before).dom().contains(a) {
                        let i = choose|i: int|
                            0 <= i < before.len() && (#[trigger] before[i]).0 == a;
                        if i < k {
                            assert(after[i].0 == a);
                        } else {
                            assert(after[i + 1].0 == a);
                        }
                    }
                    if a == addr {
                        assert(after[k as int].0 == a);
                    }
                }
                assert forall|a: u64| as_map(after).dom().contains(a) implies as_map(after)[a]
                    == as_map(before).insert(addr, text)[a] by {
                    let i = choose|i: int| 0 <= i < after.len() && (#[trigger] after[i]).0 == a;
                    lemma_as_map_entry(after, i);
                    if i < k {
                        assert(after[i].0 < after[k as int].0);
                        assert(before[i] == after[i]);
                        lemma_as_map_entry(before, i);
                    } else if i > k {
                        assert(after[k as int].0 < after[i].0);
                        assert(before[i - 1] == after[i]);
                        lemma_as_map_entry(before, i - 1);
                    }
                }
                assert(as_map(after) =~= as_map(before).insert(addr, text));
            }
        }
    }

    /// Floor lookup: the entry with the greatest address that does not exceed
    /// `ip`.
    pub fn floor(&self, ip: u64) -> (res: Option<&KernelSymbol>)
        requires
            self.wf(),
        ensures
            is_floor(
                self@,
                ip,
                match res {
                    Some(e) => Some((e.addr, e.name@)),
                    None => None,
                },
            ),
    {
        let k = self.upper_bound(ip);
        let ghost s = pairs(self.entries@);
        if k == 0 {
            proof {
                assert forall|a: u64| self@.dom().contains(a) implies a > ip by {
                    let i = choose|i: int| 0 <= i < s.len() && (#[trigger] s[i]).0 == a;
                    assert(self.entries@[i].addr > ip);
                }
            }
            None
        } else {
            proof {
                lemma_as_map_entry(s, k - 1);
                assert forall|a: u64| self@.dom().contains(a) && a <= ip implies a <= s[k - 1].0 by {
                    let i = choose|i: int| 0 <= i < s.len() && (#[trigger] s[i]).0 == a;
                    if i >= k {
                        assert(self.entries@[i].addr > ip);
                    } else if i < k - 1 {
                        assert(s[i].0 < s[k - 1].0);
                    }
                }
            }
            Some(&self.entries[k - 1])
        }
    }

    /// Resolves a kernel address to the symbol at the greatest address that
    /// does not exceed it. Where there is none, as in an empty table, the
    /// result is the marker of an unknown kernel symbol: address zero and no
    /// name.
    pub fn resolve(&self, ip: u64) -> (res: Symbol)
        requires
            self.wf(),
        ensures
            is_floor(
                self@,
                ip,
                match res.name {
                    Some(n) => Some((res.addr, n@)),
                    None => None,
                },
            ),
            res.name.is_none() ==> res.addr == 0,
    {
        match self.floor(ip) {
            Some(e) => Symbol { addr: e.addr, name: Some(e.name.clone()) },
            None => Symbol { addr: 0, name: None },
        }
    }

    /// Reads the table from the text of the kernel's symbol export. Every line
    /// must have the form `<hex-addr> <type> <name> [module]`; the first line
    /// that does not fails the whole load, and the error carries its index.
    pub fn parse(content: &[u8]) -> (res: Result<KernelSymbols, TranslateError>)
        ensures
            match res {
                Ok(t) => t.wf() && t@ == table_of(lines_from(content@, 0)) && all_lines_valid(
                    lines_from(content@, 0),
                ),
                Err(e) => exists|k: usize|
                    e == TranslateError::InvalidKernelSymbol(k) && first_invalid(
                        lines_from(content@, 0),
                        k as int,
                    ),
            },
    {
        let mut table = KernelSymbols::new();
        let mut pos: usize = 0;
        let mut count: usize = 0;
        let ghost all = lines_from(content@, 0);
        let ghost mut done: Seq<Seq<u8>> = Seq::empty();
        assert(done + lines_from(content@, 0) =~= all);
        while pos < content.len()
            invariant
                pos <= content@.len(),
                table.wf(),
                all == lines_from(content@, 0),
                all == done + lines_from(content@, pos as int),
                count == done.len(),
                count <= pos,
                table@ == table_of(done),
                forall|i: int| 0 <= i < done.len() ==> parsed_line(#[trigger] done[i]).is_some(),
            decreases content@.len() - pos,
        {
            let end = find_byte(content, pos, 0x0a);
            let line = slice_subrange(content, pos, end);
            let ghost rest = lines_from(content@, end + 1);
            proof {
                assert(lines_from(content@, pos as int) == seq![line@] + rest);
                assert(all =~= done.push(line@) + rest);
                assert(all[count as int] == line@);
                assert(done.push(line@).drop_last() =~= done);
            }
            match parse_line(line) {
                Some((addr, name)) => {
                    table.insert(addr, name);
                },
                None => {
                    proof {
                        assert forall|i: int| 0 <= i < count implies parsed_line(
                            #[trigger] all[i],
                        ).is_some() by {
                            assert(all[i] == done[i]);
                        }
                        assert(first_invalid(all, count as int));
                    }
                    return Err(TranslateError::InvalidKernelSymbol(count));
                },
            }
            proof {
                done = done.push(line@);
            }
            count += 1;
            pos = if end < content.len() {
                end + 1
            } else {
                end
            };
            assert(lines_from(content@, pos as int) == rest);
        }
        proof {
            assert(lines_from(content@, pos as int) =~= Seq::<Seq<u8>>::empty());
            assert(all =~= done);
        }
        Ok(table)
    }
}

proof fn lemma_dom_len(s: Seq<(u64, Seq<char>)>)
    requires
        ascending(s),
    ensures
        as_map(s).dom().finite(),
        as_map(s).dom().len() == s.len(),
    decreases s.len(),
{
    if s.len() == 0 {
        assert(as_map(s).dom() =~= Set::<u64>::empty());
    } else {
        let head = s.drop_last();
        lemma_dom_len(head);
        let a = s.last().0;
        assert forall|x: u64| as_map(s).dom().contains(x) == as_map(head).dom().insert(a).contains(
            x,
        ) by {
            if as_map(s).dom().contains(x) {
                let i = choose|i: int| 0 <= i < s.len() && (#[trigger] s[i]).0 == x;
                if i < s.len() - 1 {
                    assert(head[i].0 == x);
                }
            }
            if as_map(head).dom().contains(x) {
                let i = choose|i: int| 0 <= i < head.len() && (#[trigger] head[i]).0 == x;
                assert(s[i].0 == x);
            }
            if x == a {
                assert(s[s.len() - 1].0 == x);
            }
        }
        assert(as_map(s).dom() =~= as_map(head).dom().insert(a));
        if as_map(head).dom().contains(a) {
            let i = choose|i: int| 0 <= i < head.len() && (#[trigger] head[i]).0 == a;
            assert(s[i].0 < s[s.len() - 1].0);
        }
    }
}

/// The first position at or after `from` that holds `b`, or the length.
fn find_byte(s: &[u8], from: usize, b: u8) -> (at: usize)
    requires
        from <= s@.len(),
    ensures
        from <= at <= s@.len(),
        at == next_byte(s@, from as int, b),
{
    let mut at = from;
    while at < s.len() && s[at] != b
        invariant
            from <= at <= s@.len(),
            next_byte(s@, from as int, b) == next_byte(s@, at as int, b),
        decreases s@.len() - at,
    {
        at += 1;
    }
    at
}

fn space(b: u8) -> (res: bool)
    ensures
        res == is_space(b),
{
    b == 0x20 || b == 0x09 || b == 0x0b || b == 0x0c || b == 0x0d
}

/// The first position at or after `from` that holds white space (if `want`)
/// or anything else (if not), or the length.
fn find_kind(s: &[u8], from: usize, want: bool) -> (at: usize)
    requires
        from <= s@.len(),
    ensures
        from <= at <= s@.len(),
        at == next_kind(s@, from as int, want),
{
    let mut at = from;
    while at < s.len() && space(s[at]) != want
        invariant
            from <= at <= s@.len(),
            next_kind(s@, from as int, want) == next_kind(s@, at as int, want),
        decreases s@.len() - at,
    {
        at += 1;
    }
    at
}

/// The bounds of the first field at or after `from`.
fn next_field(line: &[u8], from: usize) -> (res: Option<(usize, usize)>)
    requires
        from <= line@.len(),
    ensures
        match res {
            Some((start, end)) => from <= start < end <= line@.len() && field_at(
                line@,
                from as int,
                0,
            ) == Some((start as int, end as int)) && forall|k: nat|
                k > 0 ==> field_at(line@, from as int, k) == field_at(
                    line@,
                    end as int,
                    (k - 1) as nat,
                ),
            None => forall|k: nat| field_at(line@, from as int, k).is_none(),
        },
{
    let start = find_kind(line, from, false);
    if start >= line.len() {
        assert forall|k: nat| field_at(line@, from as int, k).is_none() by {}
        None
    } else {
        let end = find_kind(line, start, true);
        proof {
            lemma_next_kind_stops(line@, from as int, false);
            assert(next_kind(line@, start as int, true) == next_kind(line@, start + 1, true));
            lemma_next_kind_bounds(line@, start + 1, true);
            assert forall|k: nat| k > 0 implies field_at(line@, from as int, k) == field_at(
                line@,
                end as int,
                (k - 1) as nat,
            ) by {}
        }
        Some((start, end))
    }
}

proof fn lemma_next_kind_bounds(s: Seq<u8>, from: int, space: bool)
    requires
        0 <= from <= s.len(),
    ensures
        from <= next_kind(s, from, space) <= s.len(),
    decreases s.len() - from,
{
    if from < s.len() && is_space(s[from]) != space {
        lemma_next_kind_bounds(s, from + 1, space);
    }
}

proof fn lemma_next_kind_stops(s: Seq<u8>, from: int, space: bool)
    requires
        0 <= from <= s.len(),
        next_kind(s, from, space) < s.len(),
    ensures
        is_space(s[next_kind(s, from, space)]) == space,
    decreases s.len() - from,
{
    if from < s.len() && is_space(s[from]) != space {
        lemma_next_kind_stops(s, from + 1, space);
    }
}

fn digit_value(b: u8) -> (res: Option<u8>)
    ensures
        match res {
            Some(d) => hex_digit(b) == Some(d as int) && d < 16,
            None => hex_digit(b).is_none(),
        },
{
    if 0x30 <= b && b <= 0x39 {
        Some(b - 0x30)
    } else if 0x61 <= b && b <= 0x66 {
        Some(b - 0x61 + 10)
    } else if 0x41 <= b && b <= 0x46 {
        Some(b - 0x41 + 10)
    } else {
        None
    }
}

proof fn lemma_hex_number_grows(s: Seq<u8>, k: int)
    requires
        0 <= k <= s.len(),
    ensures
        0 <= hex_number(s.take(k)) <= hex_number(s),
    decreases s.len() - k,
{
    if k < s.len() {
        lemma_hex_number_grows(s, k + 1);
        assert(s.take(k + 1).drop_last() =~= s.take(k));
        lemma_hex_number_nonnegative(s.take(k));
    } else {
        assert(s.take(k) =~= s);
        lemma_hex_number_nonnegative(s);
    }
}

proof fn lemma_hex_number_nonnegative(s: Seq<u8>)
    ensures
        hex_number(s) >= 0,
    decreases s.len(),
{
    if s.len() > 0 {
        lemma_hex_number_nonnegative(s.drop_last());
    }
}

/// Reads an address in hexadecimal.
pub fn parse_hex(s: &[u8]) -> (res: Option<u64>)
    ensures
        res == hex_value(s@),
{
    if s.len() == 0 {
        return None;
    }
    let mut value: u64 = 0;
    let mut i: usize = 0;
    while i < s.len()
        invariant
            i <= s@.len(),
            all_hex(s@.take(i as int)),
            value == hex_number(s@.take(i as int)),
        decreases s@.len() - i,
    {
        assert(s@.take(i + 1).drop_last() =~= s@.take(i as int));
        match digit_value(s[i]) {
            None => {
                assert(!all_hex(s@));
                return None;
            },
            Some(d) => {
                if value > (u64::MAX - d as u64) / 16 {
                    proof {
                        lemma_hex_number_grows(s@, i + 1);
                    }
                    return None;
                }
                value = value * 16 + d as u64;
                assert forall|k: int| 0 <= k < i + 1 implies hex_digit(
                    #[trigger] s@.take(i + 1)[k],
                ).is_some() by {
                    if k < i {
                        assert(s@.take(i as int)[k] == s@.take(i + 1)[k]);
                    }
                }
            },
        }
        i += 1;
    }
    assert(s@.take(s@.len() as int) =~= s@);
    Some(value)
}

/// Reads one line of the kernel's symbol export.
pub fn parse_line(line: &[u8]) -> (res: Option<(u64, String)>)
    ensures
        match res {
            Some((addr, name)) => parsed_line(line@) == Some((addr, name@)),
            None => parsed_line(line@).is_none(),
        },
{
    let (a0, a1) = match next_field(line, 0) {
        Some(bounds) => bounds,
        None => {
            return None;
        },
    };
    let (_t0, t1) = match next_field(line, a1) {
        Some(bounds) => bounds,
        None => {
            assert(field_at(line@, 0, 2) == field_at(line@, a1 as int, 1));
            return None;
        },
    };
    let (n0, n1) = match next_field(line, t1) {
        Some(bounds) => bounds,
        None => {
            assert(field_at(line@, 0, 2) == field_at(line@, a1 as int, 1));
            assert(field_at(line@, a1 as int, 1) == field_at(line@, t1 as int, 0));
            return None;
        },
    };
    proof {
        assert(field_at(line@, 0, 2) == field_at(line@, a1 as int, 1));
        assert(field_at(line@, a1 as int, 1) == field_at(line@, t1 as int, 0));
    }
    match parse_hex(slice_subrange(line, a0, a1)) {
        Some(addr) => Some((addr, decode_lossy(slice_subrange(line, n0, n1)))),
        None => None,
    }
}

} // verus!
