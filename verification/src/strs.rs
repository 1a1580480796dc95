//! String helpers and small string-keyed tables used throughout the library.
use vstd::prelude::*;
#[allow(unused_imports)]
use vstd::string::*;

verus! {

/// Character-wise string equality.
pub fn str_eq(a: &str, b: &str) -> (r: bool)
    ensures
        r == (a@ == b@),
{
    let n = a.unicode_len();
    let m = b.unicode_len();
    if n != m {
        return false;
    }
    let mut i: usize = 0;
    while i < n
        invariant
            n == a@.len(),
            m == b@.len(),
            n == m,
            i <= n,
            forall|j: int| 0 <= j < i ==> a@[j] == b@[j],
        decreases n - i,
    {
        if a.get_char(i) != b.get_char(i) {
            return false;
        }
        i += 1;
    }
    assert(a@ =~= b@);
    true
}

/// A fresh owned copy of a string slice.
pub fn own(a: &str) -> (r: String)
    ensures
        r@ == a@,
{
    String::from_str(a)
}

/// Concatenation of two string slices.
pub fn cat2(a: &str, b: &str) -> (r: String)
    ensures
        r@ == a@ + b@,
{
    let mut s = String::from_str(a);
    s.append(b);
    s
}

/// Concatenation of three string slices.
pub fn cat3(a: &str, b: &str, c: &str) -> (r: String)
    ensures
        r@ == a@ + b@ + c@,
{
    let mut s = String::from_str(a);
    s.append(b);
    s.append(c);
    s
}

/// Concatenation of four string slices.
pub fn cat4(a: &str, b: &str, c: &str, d: &str) -> (r: String)
    ensures
        r@ == a@ + b@ + c@ + d@,
{
    let mut s = String::from_str(a);
    s.append(b);
    s.append(c);
    s.append(d);
    s
}

/// Concatenation of five string slices.
pub fn cat5(a: &str, b: &str, c: &str, d: &str, e: &str) -> (r: String)
    ensures
        r@ == a@ + b@ + c@ + d@ + e@,
{
    let mut s = String::from_str(a);
    s.append(b);
    s.append(c);
    s.append(d);
    s.append(e);
    s
}

/// Name for the text that `String::from_utf8_lossy` decodes from a byte sequence.
pub uninterp spec fn utf8_lossy(b: Seq<u8>) -> Seq<char>;

/// Characters of ASCII bytes, one per byte.
pub open spec fn ascii_chars(b: Seq<u8>) -> Seq<char> {
    b.map_values(|x: u8| x as char)
}

/// All bytes are ASCII.
pub open spec fn all_ascii(b: Seq<u8>) -> bool {
    forall|i: int| 0 <= i < b.len() ==> #[trigger] b[i] < 128
}

/// Decodes bytes as UTF-8 with std's `String::from_utf8_lossy` (invalid sequences become
/// U+FFFD). Claimed: the result is the named decoding of the bytes, and ASCII bytes decode
/// to the same characters one for one, as std documents for valid UTF-8.
#[verifier::external_body]
pub fn lossy_string(b: &[u8]) -> (r: String)
    ensures
        r@ == utf8_lossy(b@),
        all_ascii(b@) ==> r@ == ascii_chars(b@),
{
    String::from_utf8_lossy(b).into_owned()
}

/// A one-character string (std's `String::from(char)`). Claimed: exactly that character.
#[verifier::external_body]
pub fn char_string(c: char) -> (r: String)
    ensures
        r@ == seq![c],
{
    String::from(c)
}

/// ASCII byte of digit `d` (`0`-`9`, then lower-case `a`-`f`).
pub open spec fn digit_byte(d: nat) -> u8 {
    if d < 10 {
        (48 + d) as u8
    } else {
        (97 + d - 10) as u8
    }
}

/// Digits of `v` in base `base` (at least one digit, most significant first).
pub open spec fn radix_bytes(v: nat, base: nat) -> Seq<u8>
    decreases v,
{
    if base < 2 || v < base {
        seq![digit_byte(v)]
    } else {
        proof {
            vstd::arithmetic::div_mod::lemma_div_decreases(v as int, base as int);
        }
        radix_bytes(v / base, base).push(digit_byte(v % base))
    }
}

/// The bases rendered as such; any other base renders in decimal.
pub open spec fn eff_base(base: u32) -> nat {
    if base == 2 || base == 8 || base == 16 {
        base as nat
    } else {
        10
    }
}

/// Text of the unsigned value `v` in (effective) base `base`.
pub open spec fn uint_text(v: nat, base: u32) -> Seq<char> {
    ascii_chars(radix_bytes(v, eff_base(base)))
}

/// Text of the signed value `v`: `-` then the magnitude when negative.
pub open spec fn int_text(v: int, base: u32) -> Seq<char> {
    if v < 0 {
        seq!['-'] + uint_text((-v) as nat, base)
    } else {
        uint_text(v as nat, base)
    }
}

proof fn lemma_radix_ascii(v: nat, base: nat)
    requires
        2 <= base <= 16,
    ensures
        all_ascii(radix_bytes(v, base)),
    decreases v,
{
    if v >= base {
        vstd::arithmetic::div_mod::lemma_div_decreases(v as int, base as int);
        lemma_radix_ascii(v / base, base);
    }
}

fn push_digits(x: u64, base: u64, out: &mut Vec<u8>)
    requires
        2 <= base <= 16,
    ensures
        final(out)@ == old(out)@ + radix_bytes(x as nat, base as nat),
    decreases x,
{
    let ghost o = out@;
    if x >= base {
        proof {
            vstd::arithmetic::div_mod::lemma_div_decreases(x as int, base as int);
        }
        push_digits(x / base, base, out);
    } else {
        proof {
            vstd::arithmetic::div_mod::lemma_small_mod(x as nat, base as nat);
        }
    }
    let d = x % base;
    let b: u8 = if d < 10 { 48 + d as u8 } else { 97 + (d - 10) as u8 };
    out.push(b);
    assert(b == digit_byte(d as nat));
    if x >= base {
        assert(out@ =~= o + radix_bytes(x as nat, base as nat));
    } else {
        assert(out@ =~= o + radix_bytes(x as nat, base as nat));
    }
}

/// The unsigned value `v` in base `base` (2, 8, 16; any other base means 10), lower-case
/// hex digits, no prefix.
pub fn format_uint(v: u64, base: u32) -> (r: String)
    ensures
        r@ == uint_text(v as nat, base),
{
    let b: u64 = if base == 2 || base == 8 || base == 16 { base as u64 } else { 10 };
    let mut buf: Vec<u8> = Vec::new();
    push_digits(v, b, &mut buf);
    proof {
        lemma_radix_ascii(v as nat, b as nat);
        assert(buf@ =~= radix_bytes(v as nat, b as nat));
    }
    lossy_string(buf.as_slice())
}

/// The signed value `v` in base `base`: a `-` and the magnitude when negative (no
/// two's-complement wrap).
pub fn format_int(v: i64, base: u32) -> (r: String)
    ensures
        r@ == int_text(v as int, base),
{
    if v < 0 {
        let mag: u64 = if v == i64::MIN { 0x8000_0000_0000_0000u64 } else { (-v) as u64 };
        let t = format_uint(mag, base);
        proof {
            reveal_strlit("-");
        }
        cat2("-", t.as_str())
    } else {
        format_uint(v as u64, base)
    }
}

/// Decimal text of an integer.
pub fn int_str(v: i64) -> (r: String)
    ensures
        r@ == int_text(v as int, 10),
{
    format_int(v, 10)
}

/// The value most recently bound to `k` in an association list (later entries win).
pub open spec fn assoc<V>(s: Seq<(String, V)>, k: Seq<char>) -> Option<V>
    decreases s.len(),
{
    if s.len() == 0 {
        None
    } else if s.last().0@ == k {
        Some(s.last().1)
    } else {
        assoc(s.drop_last(), k)
    }
}

/// Index of the last entry bound to `k`, if any.
pub open spec fn assoc_idx<V>(s: Seq<(String, V)>, k: Seq<char>) -> Option<int>
    decreases s.len(),
{
    if s.len() == 0 {
        None
    } else if s.last().0@ == k {
        Some(s.len() - 1)
    } else {
        assoc_idx(s.drop_last(), k)
    }
}

/// Keys never repeat.
pub open spec fn keys_unique<V>(s: Seq<(String, V)>) -> bool {
    forall|i: int, j: int| 0 <= i < s.len() && 0 <= j < s.len() && i != j ==> s[i].0@ != s[j].0@
}

pub proof fn lemma_assoc_idx<V>(s: Seq<(String, V)>, k: Seq<char>)
    ensures
        assoc_idx(s, k) is Some <==> assoc(s, k) is Some,
        assoc_idx(s, k) matches Some(i) ==> 0 <= i < s.len() && s[i].0@ == k && assoc(s, k)
            == Some(s[i].1) && (forall|j: int| i < j < s.len() ==> s[j].0@ != k),
        assoc_idx(s, k) is None ==> forall|j: int| 0 <= j < s.len() ==> s[j].0@ != k,
    decreases s.len(),
{
    if s.len() > 0 {
        let t = s.drop_last();
        lemma_assoc_idx(t, k);
        assert forall|j: int| 0 <= j < t.len() implies t[j] == s[j] by {}
    }
}

/// With unique keys, an entry's key finds that entry.
pub proof fn lemma_assoc_unique_at<V>(s: Seq<(String, V)>, j: int)
    requires
        keys_unique(s),
        0 <= j < s.len(),
    ensures
        assoc(s, s[j].0@) == Some(s[j].1),
{
    lemma_assoc_idx(s, s[j].0@);
}

/// Whether key `q` occurs among the first `n` entries.
pub open spec fn seen<V>(s: Seq<(String, V)>, n: int, q: Seq<char>) -> bool {
    exists|j: int| 0 <= j < n && (#[trigger] s[j]).0@ == q
}

/// The keys among the first `i + 1` entries are those among the first `i` and entry
/// `i`'s; with unique keys, entry `i`'s is not among the first `i`.
pub proof fn lemma_seen_step<V>(s: Seq<(String, V)>, i: int)
    requires
        0 <= i < s.len(),
    ensures
        forall|q: Seq<char>| #[trigger] seen(s, i + 1, q) == (seen(s, i, q) || s[i].0@ == q),
        keys_unique(s) ==> !seen(s, i, s[i].0@),
{
    assert forall|q: Seq<char>| #[trigger] seen(s, i + 1, q) == (seen(s, i, q) || s[i].0@ == q) by {
        if s[i].0@ == q {
            assert(s[i].0@ == q);
        }
        if seen(s, i, q) {
            let j = choose|j: int| 0 <= j < i && (#[trigger] s[j]).0@ == q;
            assert(s[j].0@ == q);
        }
        if seen(s, i + 1, q) && s[i].0@ != q {
            let j = choose|j: int| 0 <= j < i + 1 && (#[trigger] s[j]).0@ == q;
            assert(j < i);
        }
    }
    if keys_unique(s) && seen(s, i, s[i].0@) {
        let j = choose|j: int| 0 <= j < i && (#[trigger] s[j]).0@ == s[i].0@;
        assert(false);
    }
}

/// All keys of the table are seen exactly when they are bound.
pub proof fn lemma_seen_all<V>(s: Seq<(String, V)>, q: Seq<char>)
    ensures
        seen(s, s.len() as int, q) == (assoc(s, q) is Some),
{
    lemma_assoc_idx(s, q);
    if let Some(i) = assoc_idx(s, q) {
        assert(s[i].0@ == q);
    }
}

proof fn lemma_assoc_push<V>(s: Seq<(String, V)>, e: (String, V), k: Seq<char>)
    ensures
        assoc(s.push(e), k) == if e.0@ == k { Some(e.1) } else { assoc(s, k) },
{
    assert(s.push(e).drop_last() =~= s);
}

proof fn lemma_assoc_update<V>(s: Seq<(String, V)>, j: int, e: (String, V), k: Seq<char>)
    requires
        0 <= j < s.len(),
        s[j].0@ == e.0@,
        forall|t: int| j < t < s.len() ==> s[t].0@ != e.0@,
    ensures
        assoc(s.update(j, e), k) == if e.0@ == k { Some(e.1) } else { assoc(s, k) },
    decreases s.len(),
{
    if j == s.len() - 1 {
        assert(s.update(j, e).drop_last() =~= s.drop_last());
    } else {
        assert(s.update(j, e).drop_last() =~= s.drop_last().update(j, e));
        lemma_assoc_update(s.drop_last(), j, e, k);
    }
}

proof fn lemma_assoc_prepend<V>(s: Seq<(String, V)>, e: (String, V), k: Seq<char>)
    ensures
        assoc(seq![e] + s, k) == match assoc(s, k) {
            Some(v) => Some(v),
            None => if e.0@ == k { Some(e.1) } else { None },
        },
    decreases s.len(),
{
    let t = seq![e] + s;
    if s.len() == 0 {
        assert(t =~= seq![e]);
        assert(t.drop_last() =~= Seq::<(String, V)>::empty());
    } else {
        assert(t.len() == s.len() + 1);
        assert(t[t.len() - 1] == s[s.len() - 1]);
        assert(t.drop_last() =~= seq![e] + s.drop_last());
        lemma_assoc_prepend(s.drop_last(), e, k);
    }
}

/// A string-keyed table with map semantics: inserting a bound key replaces its value.
#[derive(Debug, Clone)]
pub struct StrMap<V> {
    pub entries: Vec<(String, V)>,
}

impl<V> StrMap<V> {
    /// The table as a mathematical map.
    pub open spec fn get_spec(&self, k: Seq<char>) -> Option<V> {
        assoc(self.entries@, k)
    }

    pub open spec fn has(&self, k: Seq<char>) -> bool {
        assoc(self.entries@, k) is Some
    }

    /// An empty table.
    pub fn new() -> (r: Self)
        ensures
            r.entries@.len() == 0,
            forall|k: Seq<char>| r.get_spec(k) is None,
    {
        StrMap { entries: Vec::new() }
    }

    fn find_idx(&self, k: &str) -> (r: Option<usize>)
        ensures
            r matches Some(i) ==> assoc_idx(self.entries@, k@) == Some(i as int),
            r is None ==> assoc_idx(self.entries@, k@) is None,
    {
        let mut i = self.entries.len();
        assert(self.entries@.subrange(0, i as int) =~= self.entries@);
        while i > 0
            invariant
                i <= self.entries@.len(),
                assoc_idx(self.entries@, k@) == assoc_idx(self.entries@.subrange(0, i as int), k@),
            decreases i,
        {
            let ghost s = self.entries@.subrange(0, i as int);
            if str_eq(self.entries[i - 1].0.as_str(), k) {
                assert(s.last() == self.entries@[i - 1]);
                return Some(i - 1);
            }
            assert(s.drop_last() =~= self.entries@.subrange(0, i - 1));
            i -= 1;
        }
        assert(self.entries@.subrange(0, 0).len() == 0);
        None
    }

    /// The value bound to `k`.
    pub fn get(&self, k: &str) -> (r: Option<&V>)
        ensures
            match r {
                Some(v) => self.get_spec(k@) == Some(*v),
                None => self.get_spec(k@) is None,
            },
    {
        proof {
            lemma_assoc_idx(self.entries@, k@);
        }
        match self.find_idx(k) {
            Some(i) => {
                assert(self.entries@[i as int] == self.entries[i as int]);
                Some(&self.entries[i].1)
            },
            None => None,
        }
    }

    /// Whether `k` is bound.
    pub fn contains_key(&self, k: &str) -> (r: bool)
        ensures
            r == self.has(k@),
    {
        proof {
            lemma_assoc_idx(self.entries@, k@);
        }
        self.find_idx(k).is_some()
    }

    /// Binds `k` to `v`, replacing an earlier binding of `k`.
    pub fn insert(&mut self, k: String, v: V)
        ensures
            forall|q: Seq<char>|
                #[trigger] final(self).get_spec(q) == if q == k@ {
                    Some(v)
                } else {
                    old(self).get_spec(q)
                },
            old(self).has(k@) ==> final(self).entries@.len() == old(self).entries@.len(),
            !old(self).has(k@) ==> final(self).entries@.len() == old(self).entries@.len() + 1,
            keys_unique(old(self).entries@) ==> keys_unique(final(self).entries@),
    {
        proof {
            lemma_assoc_idx(self.entries@, k@);
        }
        let ghost k0 = k@;
        let ghost v0 = v;
        match self.find_idx(k.as_str()) {
            Some(i) => {
                let ghost e = (k, v0);
                proof {
                    assert forall|q: Seq<char>| #[trigger]
                        assoc(self.entries@.update(i as int, e), q) == if q == k0 {
                            Some(v0)
                        } else {
                            assoc(self.entries@, q)
                        } by {
                        lemma_assoc_update(self.entries@, i as int, e, q);
                    }
                }
                self.entries.set(i, (k, v));
                proof {
                    assert forall|a: int, b: int|
                        0 <= a < self.entries@.len() && 0 <= b < self.entries@.len() && a != b
                            && keys_unique(old(self).entries@) implies self.entries@[a].0@
                        != self.entries@[b].0@ by {
                        assert(self.entries@[a].0@ == old(self).entries@[a].0@);
                        assert(self.entries@[b].0@ == old(self).entries@[b].0@);
                    }
                }
            },
            None => {
                let ghost e = (k, v0);
                proof {
                    assert forall|q: Seq<char>| #[trigger]
                        assoc(self.entries@.push(e), q) == if q == k0 {
                            Some(v0)
                        } else {
                            assoc(self.entries@, q)
                        } by {
                        lemma_assoc_push(self.entries@, e, q);
                    }
                }
                self.entries.push((k, v));
                proof {
                    assert forall|a: int, b: int|
                        0 <= a < self.entries@.len() && 0 <= b < self.entries@.len() && a != b
                            && keys_unique(old(self).entries@) implies self.entries@[a].0@
                        != self.entries@[b].0@ by {
                        let n = old(self).entries@.len() as int;
                        if a < n {
                            assert(self.entries@[a] == old(self).entries@[a]);
                        }
                        if b < n {
                            assert(self.entries@[b] == old(self).entries@[b]);
                        }
                    }
                }
            },
        }
    }

    /// Unbinds `k`.
    pub fn remove(&mut self, k: &str)
        ensures
            forall|q: Seq<char>| #[trigger] final(self).get_spec(q) == if q == k@ {
                None
            } else {
                old(self).get_spec(q)
            },
            keys_unique(old(self).entries@) ==> keys_unique(final(self).entries@),
    {
        let mut kept: Vec<(String, V)> = Vec::new();
        let ghost s = self.entries@;
        while self.entries.len() > 0
            invariant
                forall|q: Seq<char>| q != k@ ==> #[trigger] assoc(s, q) == match assoc(kept@, q) {
                    Some(v) => Some(v),
                    None => assoc(self.entries@, q),
                },
                assoc(kept@, k@) is None,
                self.entries@.len() <= s.len(),
                self.entries@ == s.subrange(0, self.entries@.len() as int),
                keys_unique(s) ==> keys_unique(kept@),
                keys_unique(s) ==> forall|a: int, b: int|
                    0 <= a < kept@.len() && 0 <= b < self.entries@.len() ==> (#[trigger] kept@[a]).0@ != (
                    #[trigger] self.entries@[b]).0@,
            decreases self.entries@.len(),
        {
            let ghost e0 = self.entries@;
            let e = self.entries.pop().unwrap();
            proof {
                assert(e0.drop_last() == self.entries@);
                assert(e0.last() == e);
                assert(self.entries@ =~= s.subrange(0, self.entries@.len() as int));
            }
            if !str_eq(e.0.as_str(), k) {
                let ghost kp = kept@;
                kept.insert(0, e);
                proof {
                    assert(kept@ =~= seq![e] + kp);
                    assert forall|q: Seq<char>| #[trigger] assoc(kept@, q) == match assoc(kp, q) {
                        Some(v) => Some(v),
                        None => if e.0@ == q { Some(e.1) } else { None },
                    } by {
                        lemma_assoc_prepend(kp, e, q);
                    }
                    if keys_unique(s) {
                        let n = self.entries@.len() as int;
                        assert(e == s[n]);
                        assert forall|a: int, b: int|
                            0 <= a < kept@.len() && 0 <= b < kept@.len() && a != b implies kept@[a].0@ != kept@[b].0@ by {
                            if a == 0 {
                                assert(kp[b - 1] == kept@[b]);
                                assert(e0[n] == e);
                                assert(kept@[b].0@ != e0[n].0@);
                            } else if b == 0 {
                                assert(kp[a - 1] == kept@[a]);
                                assert(kept@[a].0@ != e0[n].0@);
                            } else {
                                assert(kp[a - 1] == kept@[a] && kp[b - 1] == kept@[b]);
                            }
                        }
                        assert forall|a: int, b: int|
                            0 <= a < kept@.len() && 0 <= b < self.entries@.len() implies (#[trigger] kept@[a]).0@ != (
                            #[trigger] self.entries@[b]).0@ by {
                            assert(self.entries@[b] == s[b]);
                            if a == 0 {
                                assert(s[n] == e);
                            } else {
                                assert(kp[a - 1] == kept@[a]);
                                assert(e0[b] == self.entries@[b]);
                            }
                        }
                    }
                }
            } else {
                proof {
                    if keys_unique(s) {
                        assert forall|a: int, b: int|
                            0 <= a < kept@.len() && 0 <= b < self.entries@.len() implies (#[trigger] kept@[a]).0@ != (
                            #[trigger] self.entries@[b]).0@ by {
                            assert(e0[b] == self.entries@[b]);
                        }
                    }
                }
            }
        }
        self.entries = kept;
    }

    /// Number of bound keys (for a table built only by `insert`).
    pub fn len(&self) -> (r: usize)
        ensures
            r == self.entries@.len(),
    {
        self.entries.len()
    }
}

/// Whether `k` occurs among the strings of `s`.
pub open spec fn seq_has_str(s: Seq<String>, k: Seq<char>) -> bool {
    exists|i: int| 0 <= i < s.len() && s[i]@ == k
}

/// A set of strings kept in insertion order.
#[derive(Debug, Clone)]
pub struct StrSet {
    pub items: Vec<String>,
}

impl StrSet {
    pub open spec fn has(&self, k: Seq<char>) -> bool {
        seq_has_str(self.items@, k)
    }

    pub fn new() -> (r: Self)
        ensures
            r.items@.len() == 0,
            forall|k: Seq<char>| !r.has(k),
    {
        StrSet { items: Vec::new() }
    }

    pub fn contains(&self, k: &str) -> (r: bool)
        ensures
            r == self.has(k@),
    {
        let mut i: usize = 0;
        while i < self.items.len()
            invariant
                i <= self.items@.len(),
                forall|j: int| 0 <= j < i ==> self.items@[j]@ != k@,
            decreases self.items@.len() - i,
        {
            if str_eq(self.items[i].as_str(), k) {
                return true;
            }
            i += 1;
        }
        false
    }

    /// Whether the set has no element.
    pub fn is_empty(&self) -> (r: bool)
        ensures
            r == (self.items@.len() == 0),
            r ==> forall|k: Seq<char>| !self.has(k),
    {
        self.items.len() == 0
    }

    /// Removes every element.
    pub fn clear(&mut self)
        ensures
            final(self).items@.len() == 0,
            forall|k: Seq<char>| !final(self).has(k),
    {
        self.items.clear();
    }

    /// Adds `k`; returns whether it was newly added.
    pub fn insert(&mut self, k: String) -> (r: bool)
        ensures
            r == !old(self).has(k@),
            forall|q: Seq<char>| #[trigger] final(self).has(q) == (old(self).has(q) || q == k@),
            r ==> final(self).items@ == old(self).items@.push(k),
            !r ==> final(self).items@ == old(self).items@,
    {
        if self.contains(k.as_str()) {
            return false;
        }
        let ghost k0 = k@;
        self.items.push(k);
        proof {
            assert forall|q: Seq<char>| #[trigger] self.has(q) == (old(self).has(q) || q == k0) by {
                if old(self).has(q) {
                    let j = choose|j: int| 0 <= j < old(self).items@.len() && old(self).items@[j]@ == q;
                    assert(self.items@[j] == old(self).items@[j]);
                }
                if q == k0 {
                    assert(self.items@[self.items@.len() - 1]@ == q);
                }
            }
        }
        true
    }
}

// ---- ordering of strings ------------------------------------------------------------

/// Lexicographic order of strings by character code (the order of `str`).
pub open spec fn lex_lt(a: Seq<char>, b: Seq<char>) -> bool
    decreases a.len(),
{
    if b.len() == 0 {
        false
    } else if a.len() == 0 {
        true
    } else if a[0] != b[0] {
        (a[0] as u32) < (b[0] as u32)
    } else {
        lex_lt(a.drop_first(), b.drop_first())
    }
}

/// `a` equals `b` or comes before it.
pub open spec fn lex_le(a: Seq<char>, b: Seq<char>) -> bool {
    a == b || lex_lt(a, b)
}

/// The order is transitive.
pub proof fn lemma_lex_trans(a: Seq<char>, b: Seq<char>, c: Seq<char>)
    requires
        lex_lt(a, b),
        lex_lt(b, c),
    ensures
        lex_lt(a, c),
    decreases a.len(),
{
    if a.len() > 0 && b.len() > 0 && c.len() > 0 && a[0] == b[0] && b[0] == c[0] {
        lemma_lex_trans(a.drop_first(), b.drop_first(), c.drop_first());
    }
}

/// The order is irreflexive.
pub proof fn lemma_lex_irrefl(a: Seq<char>)
    ensures
        !lex_lt(a, a),
    decreases a.len(),
{
    if a.len() > 0 {
        lemma_lex_irrefl(a.drop_first());
    }
}

/// The order is total.
pub proof fn lemma_lex_total(a: Seq<char>, b: Seq<char>)
    ensures
        a == b || lex_lt(a, b) || lex_lt(b, a),
    decreases a.len(),
{
    if a.len() > 0 && b.len() > 0 {
        if a[0] == b[0] {
            lemma_lex_total(a.drop_first(), b.drop_first());
            if a.drop_first() == b.drop_first() {
                assert(a =~= seq![a[0]] + a.drop_first());
                assert(b =~= seq![b[0]] + b.drop_first());
            }
        } else {
            let x = a[0] as u32;
            let y = b[0] as u32;
            vstd::utf8::char_u32_cast(a[0], x);
            vstd::utf8::char_u32_cast(b[0], y);
        }
    } else if a.len() == 0 && b.len() == 0 {
        assert(a =~= b);
    }
}

proof fn lemma_lex_le_trans(a: Seq<char>, b: Seq<char>, c: Seq<char>)
    requires
        lex_le(a, b),
        lex_le(b, c),
    ensures
        lex_le(a, c),
{
    if lex_lt(a, b) && lex_lt(b, c) {
        lemma_lex_trans(a, b, c);
    }
}

/// Whether `a` comes before `b` in the order of strings.
pub fn str_lt(a: &str, b: &str) -> (r: bool)
    ensures
        r == lex_lt(a@, b@),
{
    let n = a.unicode_len();
    let m = b.unicode_len();
    let mut i: usize = 0;
    assert(a@.skip(0) =~= a@);
    assert(b@.skip(0) =~= b@);
    while i < n && i < m
        invariant
            n == a@.len(),
            m == b@.len(),
            i <= n,
            i <= m,
            lex_lt(a@, b@) == lex_lt(a@.skip(i as int), b@.skip(i as int)),
        decreases n - i,
    {
        let x = a.get_char(i);
        let y = b.get_char(i);
        proof {
            assert(a@.skip(i as int)[0] == x);
            assert(b@.skip(i as int)[0] == y);
        }
        if x != y {
            return (x as u32) < (y as u32);
        }
        proof {
            assert(a@.skip(i as int).drop_first() =~= a@.skip(i + 1));
            assert(b@.skip(i as int).drop_first() =~= b@.skip(i + 1));
        }
        i += 1;
    }
    i == n && i < m
}

/// The views of `v` in non-decreasing order.
pub open spec fn sorted_strs(v: Seq<Seq<char>>) -> bool {
    forall|i: int, j: int| 0 <= i < j < v.len() ==> lex_le(#[trigger] v[i], #[trigger] v[j])
}

/// The strings of `v` in order (a permutation of `v`).
pub fn sort_strs(v: &Vec<String>) -> (r: Vec<String>)
    ensures
        sorted_strs(crate::parser::strs_view(r@)),
        crate::parser::strs_view(r@).to_multiset() == crate::parser::strs_view(v@).to_multiset(),
        r@.len() == v@.len(),
{
    let mut out: Vec<String> = Vec::new();
    let mut k: usize = 0;
    proof {
        assert(crate::parser::strs_view(v@.subrange(0, 0)) =~= Seq::<Seq<char>>::empty());
        assert(crate::parser::strs_view(out@) =~= Seq::<Seq<char>>::empty());
    }
    while k < v.len()
        invariant
            k <= v@.len(),
            out@.len() == k,
            sorted_strs(crate::parser::strs_view(out@)),
            crate::parser::strs_view(out@).to_multiset() == crate::parser::strs_view(v@.subrange(0, k as int)).to_multiset(),
        decreases v@.len() - k,
    {
        let x = v[k].as_str();
        let ghost o = crate::parser::strs_view(out@);
        let mut pos: usize = 0;
        while pos < out.len() && str_lt(out[pos].as_str(), x)
            invariant
                pos <= out@.len(),
                o == crate::parser::strs_view(out@),
                forall|i: int| 0 <= i < pos ==> lex_lt(#[trigger] o[i], x@),
            decreases out@.len() - pos,
        {
            assert(o[pos as int] == out@[pos as int]@);
            pos += 1;
        }
        out.insert(pos, v[k].clone());
        proof {
            let o2 = crate::parser::strs_view(out@);
            assert(o2 =~= o.insert(pos as int, x@));
            if pos < o.len() {
                assert(o[pos as int] == out@[pos + 1]@);
                lemma_lex_total(o[pos as int], x@);
            }
            assert forall|i: int, j: int| 0 <= i < j < o2.len() implies lex_le(#[trigger] o2[i], #[trigger] o2[j]) by {
                if j < pos {
                    assert(o2[i] == o[i] && o2[j] == o[j]);
                } else if j == pos {
                    assert(o2[i] == o[i]);
                } else if i == pos {
                    assert(o2[j] == o[j - 1]);
                    if j - 1 > pos {
                        assert(lex_le(o[pos as int], o[j - 1]));
                    }
                    lemma_lex_le_trans(x@, o[pos as int], o[j - 1]);
                } else if i < pos {
                    assert(o2[i] == o[i] && o2[j] == o[j - 1]);
                    assert(lex_lt(o[i], x@));
                    if pos < o.len() {
                        if j - 1 > pos {
                            assert(lex_le(o[pos as int], o[j - 1]));
                        }
                        lemma_lex_le_trans(x@, o[pos as int], o[j - 1]);
                        lemma_lex_le_trans(o[i], x@, o[j - 1]);
                    }
                } else {
                    assert(o2[i] == o[i - 1] && o2[j] == o[j - 1]);
                }
            }
            vstd::seq_lib::to_multiset_insert(o, pos as int, x@);
            let pre = crate::parser::strs_view(v@.subrange(0, k as int));
            assert(crate::parser::strs_view(v@.subrange(0, k + 1)) =~= pre.push(x@));
            vstd::seq_lib::to_multiset_build(pre, x@);
        }
        k += 1;
    }
    proof {
        assert(v@.subrange(0, v@.len() as int) =~= v@);
    }
    out
}

} // verus!
