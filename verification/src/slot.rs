use vstd::prelude::*;
use vstd::string::*;

verus! {

/// Slots represent variable names; internally they are just a number.
///
/// The residue modulo 4 tells the kind of a slot:
/// 0 = numeric (`$42`), 1 = fresh (`$f3`), 2 = named (`$x`), 3 = unused.
#[derive(Clone, Copy, PartialEq, Eq, Structural, Hash, Debug)]
pub struct Slot(pub u64);

/// The table that hands out fresh slots and remembers the names of named slots.
pub struct SlotTable {
    /// The next fresh slot; always congruent to 1 modulo 4.
    pub fresh_idx: u64,
    /// `named_vec[i]` is the name of the slot `4 * i + 2`.
    pub named_vec: Vec<String>,
}

pub open spec fn is_digit(c: char) -> bool {
    '0' <= c <= '9'
}

pub open spec fn digit_value(c: char) -> nat {
    (c as nat - '0' as nat) as nat
}

pub open spec fn all_digits(s: Seq<char>) -> bool {
    forall|i: int| 0 <= i < s.len() ==> is_digit(#[trigger] s[i])
}

/// The number written by the decimal digits `s`.
pub open spec fn digits_value(s: Seq<char>) -> nat
    decreases s.len(),
{
    if s.len() == 0 {
        0
    } else {
        digits_value(s.drop_last()) * 10 + digit_value(s.last())
    }
}

/// The digits that `str::parse::<u64>` reads: an optional leading `+`, then the rest.
pub open spec fn unsigned_body(s: Seq<char>) -> Seq<char> {
    if s.len() > 0 && s[0] == '+' {
        s.drop_first()
    } else {
        s
    }
}

/// What `str::parse::<u64>` gives back for the text `s`.
pub open spec fn parse_u64_spec(s: Seq<char>) -> Option<u64> {
    let b = unsigned_body(s);
    if b.len() > 0 && all_digits(b) && digits_value(b) <= u64::MAX {
        Some(digits_value(b) as u64)
    } else {
        None
    }
}

pub open spec fn slot_kind(s: Slot) -> int {
    s.0 as int % 4
}

/// The text `s` with the first character removed, when it starts with `f`.
pub open spec fn fresh_suffix(s: Seq<char>) -> Option<u64> {
    if s.len() > 0 && s[0] == 'f' {
        parse_u64_spec(s.drop_first())
    } else {
        None
    }
}

/// Named slots can be created from `s` without overflowing the slot numbers.
pub open spec fn named_in_range(tab: SlotTable, s: Seq<char>) -> bool {
    &&& (parse_u64_spec(s) matches Some(x) ==> 4 * x <= u64::MAX)
    &&& (parse_u64_spec(s) is None && fresh_suffix(s) is Some ==> 4 * fresh_suffix(s).unwrap() + 5
        <= u64::MAX)
    &&& (parse_u64_spec(s) is None && fresh_suffix(s) is None ==> 4 * tab.named_vec.len() + 2
        <= u64::MAX)
}

impl SlotTable {
    /// The next fresh slot is a fresh one, every stored name is neither a number nor an `f`
    /// followed by a number, and no name is stored twice.
    pub open spec fn wf(&self) -> bool {
        &&& self.fresh_idx % 4 == 1
        &&& forall|i: int| 0 <= i < self.named_vec@.len() ==> {
            &&& parse_u64_spec(#[trigger] self.named_vec@[i]@) is None
            &&& fresh_suffix(self.named_vec@[i]@) is None
        }
        &&& forall|i: int, j: int|
            0 <= i < j < self.named_vec@.len() ==> #[trigger] self.named_vec@[i]@ != #[trigger] self.named_vec@[j]@
    }

    /// A table in which no fresh or named slot has been handed out yet.
    pub fn new() -> (t: SlotTable)
        ensures
            t.wf(),
            t.fresh_idx == 1,
            t.named_vec@.len() == 0,
    {
        SlotTable { fresh_idx: 1, named_vec: Vec::new() }
    }
}

/// The decimal number written in `s`, as `str::parse::<u64>` reads it.
pub fn parse_u64(s: &str) -> (r: Option<u64>)
    ensures
        r == parse_u64_spec(s@),
{
    let n = s.unicode_len();
    let mut start: usize = 0;
    if n > 0 && s.get_char(0) == '+' {
        start = 1;
    }
    let ghost b = unsigned_body(s@);
    assert(b =~= s@.subrange(start as int, n as int));
    if start == n {
        return None;
    }
    let mut acc: u64 = 0;
    let mut i: usize = start;
    while i < n
        invariant
            start <= i <= n,
            n == s@.len(),
            b =~= s@.subrange(start as int, n as int),
            b == unsigned_body(s@),
            all_digits(b.subrange(0, i - start)),
            acc as nat == digits_value(b.subrange(0, i - start)),
        decreases n - i,
    {
        let c = s.get_char(i);
        let ghost pre = b.subrange(0, i - start);
        let ghost post = b.subrange(0, i + 1 - start);
        assert(post.drop_last() =~= pre);
        if !('0' <= c && c <= '9') {
            assert(b[i - start] == c);
            assert(!is_digit(b[i - start]));
            assert(!all_digits(b));
            return None;
        }
        let d: u64 = (c as u32 - '0' as u32) as u64;
        assert(is_digit(post.last()));
        assert(digits_value(post) == acc * 10 + d);
        if acc > (u64::MAX - d) / 10 {
            assert(acc * 10 + d > u64::MAX) by (nonlinear_arith)
                requires
                    acc > (u64::MAX - d) / 10,
                    d < 10,
            ;
            proof {
                if all_digits(b) {
                    lemma_digits_value_prefix_monotone(b, (i + 1 - start) as int);
                }
            }
            return None;
        }
        acc = acc * 10 + d;
        i = i + 1;
    }
    assert(b.subrange(0, n - start) =~= b);
    Some(acc)
}

/// Longer digit prefixes never denote smaller numbers.
pub proof fn lemma_digits_value_prefix_monotone(b: Seq<char>, k: int)
    requires
        0 <= k <= b.len(),
        all_digits(b),
    ensures
        digits_value(b.subrange(0, k)) <= digits_value(b),
    decreases b.len() - k,
{
    if k < b.len() {
        lemma_digits_value_prefix_monotone(b, k + 1);
        assert(b.subrange(0, k + 1).drop_last() =~= b.subrange(0, k));
    } else {
        assert(b.subrange(0, k) =~= b);
    }
}

impl Slot {
    /// The numeric slot `$u`.
    pub fn numeric(u: u32) -> (s: Slot)
        ensures
            s.0 == 4 * u,
    {
        Slot(u as u64 * 4)
    }

    /// The slot that an absent entry of a slot map stands for.
    pub fn missing() -> (s: Slot)
        ensures
            s.0 == u32::MAX,
    {
        Slot(4294967295u64)
    }

    /// Generates a fresh slot: one the table has never handed out before.
    pub fn fresh(tab: &mut SlotTable) -> (s: Slot)
        requires
            old(tab).wf(),
            old(tab).fresh_idx + 4 <= u64::MAX,
        ensures
            final(tab).wf(),
            s.0 == old(tab).fresh_idx,
            final(tab).fresh_idx == old(tab).fresh_idx + 4,
            final(tab).named_vec@ == old(tab).named_vec@,
    {
        let old_val = tab.fresh_idx;
        tab.fresh_idx = tab.fresh_idx + 4;
        Slot(old_val)
    }

    /// Generates the slot written `$s`: a number gives a numeric slot, `f` and a number a
    /// fresh slot, and any other text the named slot of that name.
    pub fn named(tab: &mut SlotTable, s: &str) -> (r: Slot)
        requires
            old(tab).wf(),
            named_in_range(*old(tab), s@),
        ensures
            final(tab).wf(),
            parse_u64_spec(s@) matches Some(x) ==> r.0 == 4 * x && *final(tab) == *old(tab),
            parse_u64_spec(s@) is None && fresh_suffix(s@) is Some ==> {
                &&& r.0 == 4 * fresh_suffix(s@).unwrap() + 1
                &&& final(tab).named_vec@ == old(tab).named_vec@
                &&& final(tab).fresh_idx == if old(tab).fresh_idx <= r.0 {
                    (r.0 + 4) as u64
                } else {
                    old(tab).fresh_idx
                }
            },
            parse_u64_spec(s@) is None && fresh_suffix(s@) is None ==> {
                &&& final(tab).fresh_idx == old(tab).fresh_idx
                &&& r.0 % 4 == 2
                &&& 0 <= (r.0 - 2) / 4 < final(tab).named_vec@.len()
                &&& final(tab).named_vec@[(r.0 - 2) / 4]@ == s@
                &&& forall|i: int|
                    0 <= i < final(tab).named_vec@.len() && #[trigger] final(tab).named_vec@[i]@ == s@
                        ==> r.0 == 4 * i + 2
                &&& (exists|i: int|
                    0 <= i < old(tab).named_vec@.len() && #[trigger] old(
                        tab,
                    ).named_vec@[i]@ == s@) ==> final(tab).named_vec@ == old(tab).named_vec@
                &&& (forall|i: int|
                    0 <= i < old(tab).named_vec@.len() ==> #[trigger] old(tab).named_vec@[i]@
                        != s@) ==> final(tab).named_vec@ == old(tab).named_vec@.push(
                    final(tab).named_vec@.last(),
                ) && r.0 == 4 * old(tab).named_vec@.len() + 2
            },
    {
        if let Some(x) = parse_u64(s) {
            return Slot(x * 4);
        }
        let n = s.unicode_len();
        if n > 0 && s.get_char(0) == 'f' {
            let rest = s.substring_char(1, n);
            assert(rest@ =~= s@.drop_first());
            if let Some(x) = parse_u64(rest) {
                let out = x * 4 + 1;
                if tab.fresh_idx <= out {
                    tab.fresh_idx = out + 4;
                }
                return Slot(out);
            }
        }
        if let Some(i) = find_name(&tab.named_vec, s) {
            return Slot(4 * i as u64 + 2);
        }
        let idx = tab.named_vec.len() as u64;
        tab.named_vec.push(String::from_str(s));
        Slot(4 * idx + 2)
    }

    /// The slot written as text, e.g. `$42`, `$f3` or `$x`.
    pub fn show(&self, tab: &SlotTable) -> (r: String)
        requires
            slot_kind(*self) != 3,
            slot_kind(*self) == 2 ==> (self.0 - 2) / 4 < tab.named_vec@.len(),
        ensures
            r@ == show_spec(*tab, *self),
    {
        let u = self.0;
        let mut out: Vec<char> = Vec::new();
        out.push('$');
        if u % 4 == 0 {
            let d = decimal_chars(u / 4);
            out.append(&mut d.clone());
            string_from_chars(&out)
        } else if u % 4 == 1 {
            out.push('f');
            let d = decimal_chars(u / 4);
            out.append(&mut d.clone());
            string_from_chars(&out)
        } else {
            assert(slot_kind(*self) == 2);
            let q: u64 = (u - 2) / 4;
            assert(q == (self.0 - 2) / 4);
            assert(q < tab.named_vec@.len());
            let ghost bound: usize = tab.named_vec.len();
            assert(q < bound);
            let idx = q as usize;
            assert(idx == (self.0 - 2) / 4);
            let mut s = string_from_chars(&out);
            let name = tab.named_vec[idx].as_str();
            assert(name@ == tab.named_vec@[idx as int]@);
            s.append(name);
            s
        }
    }
}

/// The first position of `v` that holds the text `s`.
fn find_name(v: &Vec<String>, s: &str) -> (r: Option<usize>)
    ensures
        r matches Some(i) ==> i < v@.len() && v@[i as int]@ == s@,
        r is None ==> forall|j: int| 0 <= j < v@.len() ==> #[trigger] v@[j]@ != s@,
{
    let mut i: usize = 0;
    while i < v.len()
        invariant
            0 <= i <= v@.len(),
            forall|j: int| 0 <= j < i ==> #[trigger] v@[j]@ != s@,
        decreases v@.len() - i,
    {
        if string_eq_str(&v[i], s) {
            return Some(i);
        }
        i = i + 1;
    }
    None
}

/// Whether two strings hold the same text.
pub fn string_eq_str(a: &String, b: &str) -> (r: bool)
    ensures
        r == (a@ == b@),
{
    let owned = String::from_str(b);
    *a == owned
}

/// The string made of the characters `v`.
#[verifier::external_body]
pub fn string_from_chars(v: &Vec<char>) -> (s: String)
    ensures
        s@ == v@,
{
    String::from_iter(v.iter())
}

pub open spec fn digit_char(d: nat) -> char {
    if d == 0 {
        '0'
    } else if d == 1 {
        '1'
    } else if d == 2 {
        '2'
    } else if d == 3 {
        '3'
    } else if d == 4 {
        '4'
    } else if d == 5 {
        '5'
    } else if d == 6 {
        '6'
    } else if d == 7 {
        '7'
    } else if d == 8 {
        '8'
    } else {
        '9'
    }
}

/// The decimal digits of `n`, without leading zeros (`0` for zero).
pub open spec fn decimal(n: nat) -> Seq<char>
    decreases n,
{
    if n < 10 {
        seq![digit_char(n)]
    } else {
        decimal(n / 10).push(digit_char(n % 10))
    }
}

fn digit_to_char(d: u64) -> (c: char)
    requires
        d < 10,
    ensures
        c == digit_char(d as nat),
{
    if d == 0 {
        '0'
    } else if d == 1 {
        '1'
    } else if d == 2 {
        '2'
    } else if d == 3 {
        '3'
    } else if d == 4 {
        '4'
    } else if d == 5 {
        '5'
    } else if d == 6 {
        '6'
    } else if d == 7 {
        '7'
    } else if d == 8 {
        '8'
    } else {
        '9'
    }
}

/// The decimal digits of `n`.
pub fn decimal_chars(n: u64) -> (r: Vec<char>)
    ensures
        r@ == decimal(n as nat),
    decreases n,
{
    if n < 10 {
        let mut v: Vec<char> = Vec::new();
        v.push(digit_to_char(n));
        v
    } else {
        let mut v = decimal_chars(n / 10);
        v.push(digit_to_char(n % 10));
        v
    }
}

/// The text of a slot: `$` and its number, `$f` and its number, or `$` and its name.
pub open spec fn show_spec(tab: SlotTable, x: Slot) -> Seq<char> {
    if slot_kind(x) == 0 {
        seq!['$'] + decimal(x.0 as nat / 4)
    } else if slot_kind(x) == 1 {
        seq!['$', 'f'] + decimal(x.0 as nat / 4)
    } else {
        seq!['$'] + tab.named_vec@[(x.0 - 2) / 4]@
    }
}

proof fn lemma_digit_char(k: nat)
    requires
        k < 10,
    ensures
        is_digit(digit_char(k)),
        digit_value(digit_char(k)) == k,
        digit_char(k) != '+',
{
    if k == 0 {
    } else if k == 1 {
    } else if k == 2 {
    } else if k == 3 {
    } else if k == 4 {
    } else if k == 5 {
    } else if k == 6 {
    } else if k == 7 {
    } else if k == 8 {
    } else {
    }
}

/// The decimal digits of `n` are digits and stand for `n`.
pub proof fn lemma_decimal(n: nat)
    ensures
        decimal(n).len() > 0,
        all_digits(decimal(n)),
        digits_value(decimal(n)) == n,
        decimal(n)[0] != '+',
    decreases n,
{
    if n < 10 {
        lemma_digit_char(n);
        let d = decimal(n);
        assert(d.drop_last() =~= Seq::<char>::empty());
        assert(digits_value(d) == digits_value(d.drop_last()) * 10 + digit_value(d.last()));
    } else {
        lemma_decimal(n / 10);
        lemma_digit_char(n % 10);
        let d = decimal(n);
        assert(digits_value(d) == digits_value(d.drop_last()) * 10 + digit_value(d.last()));
        assert(d.drop_last() =~= decimal(n / 10));
        assert(d.last() == digit_char(n % 10));
        assert(n == (n / 10) * 10 + n % 10);
        assert forall|i: int| 0 <= i < d.len() implies is_digit(#[trigger] d[i]) by {
            if i < d.len() - 1 {
                assert(d[i] == decimal(n / 10)[i]);
            }
        }
        assert(d[0] == decimal(n / 10)[0]);
    }
}

/// Reading back the decimal digits of a number gives the number.
pub proof fn lemma_parse_decimal(n: u64)
    ensures
        parse_u64_spec(decimal(n as nat)) == Some(n),
{
    lemma_decimal(n as nat);
    assert(unsigned_body(decimal(n as nat)) == decimal(n as nat));
}

} // verus!
