//! Object ids and the abstract state shared by all repository capabilities.

use vstd::prelude::*;
use crate::object::commit::CommitView;

verus! {

/// Number of bytes in an object id.
pub const OID_LEN: usize = 20;

/// Number of characters in the canonical (lowercase hexadecimal) form of an id.
pub const HEX_LEN: usize = 40;

/// The hexadecimal digit for a value below sixteen.
pub open spec fn hex_digit(n: int) -> char {
    if n == 0 {
        '0'
    } else if n == 1 {
        '1'
    } else if n == 2 {
        '2'
    } else if n == 3 {
        '3'
    } else if n == 4 {
        '4'
    } else if n == 5 {
        '5'
    } else if n == 6 {
        '6'
    } else if n == 7 {
        '7'
    } else if n == 8 {
        '8'
    } else if n == 9 {
        '9'
    } else if n == 10 {
        'a'
    } else if n == 11 {
        'b'
    } else if n == 12 {
        'c'
    } else if n == 13 {
        'd'
    } else if n == 14 {
        'e'
    } else {
        'f'
    }
}

/// Whether a character is a lowercase hexadecimal digit.
pub open spec fn is_hex_digit(c: char) -> bool {
    exists|n: int| 0 <= n < 16 && hex_digit(n) == c
}

/// Whether a string is the canonical form of some id.
pub open spec fn is_hex_id(s: Seq<char>) -> bool {
    &&& s.len() == HEX_LEN
    &&& forall|i: int| 0 <= i < s.len() ==> is_hex_digit(#[trigger] s[i])
}

/// The value of a hexadecimal digit, if the character is one.
pub fn hex_value(c: char) -> (r: Option<u8>)
    ensures
        r matches Some(n) ==> n < 16 && hex_digit(n as int) == c,
        r is None ==> !is_hex_digit(c),
{
    if c == '0' {
        Some(0)
    } else if c == '1' {
        Some(1)
    } else if c == '2' {
        Some(2)
    } else if c == '3' {
        Some(3)
    } else if c == '4' {
        Some(4)
    } else if c == '5' {
        Some(5)
    } else if c == '6' {
        Some(6)
    } else if c == '7' {
        Some(7)
    } else if c == '8' {
        Some(8)
    } else if c == '9' {
        Some(9)
    } else if c == 'a' {
        Some(10)
    } else if c == 'b' {
        Some(11)
    } else if c == 'c' {
        Some(12)
    } else if c == 'd' {
        Some(13)
    } else if c == 'e' {
        Some(14)
    } else if c == 'f' {
        Some(15)
    } else {
        None
    }
}

/// The one-character string for a value below sixteen.
fn hex_digit_str(n: u8) -> (r: &'static str)
    requires
        n < 16,
    ensures
        r@ == seq![hex_digit(n as int)],
{
    proof {
        reveal_strlit("0");
        reveal_strlit("1");
        reveal_strlit("2");
        reveal_strlit("3");
        reveal_strlit("4");
        reveal_strlit("5");
        reveal_strlit("6");
        reveal_strlit("7");
        reveal_strlit("8");
        reveal_strlit("9");
        reveal_strlit("a");
        reveal_strlit("b");
        reveal_strlit("c");
        reveal_strlit("d");
        reveal_strlit("e");
        reveal_strlit("f");
    }
    let r = if n == 0 {
        "0"
    } else if n == 1 {
        "1"
    } else if n == 2 {
        "2"
    } else if n == 3 {
        "3"
    } else if n == 4 {
        "4"
    } else if n == 5 {
        "5"
    } else if n == 6 {
        "6"
    } else if n == 7 {
        "7"
    } else if n == 8 {
        "8"
    } else if n == 9 {
        "9"
    } else if n == 10 {
        "a"
    } else if n == 11 {
        "b"
    } else if n == 12 {
        "c"
    } else if n == 13 {
        "d"
    } else if n == 14 {
        "e"
    } else {
        "f"
    };
    r
}

/// Identifier of an object: the twenty bytes of its content hash.
#[derive(Clone, Copy, Debug, Hash)]
pub struct Oid {
    pub bytes: [u8; 20],
}

impl View for Oid {
    type V = Seq<u8>;

    open spec fn view(&self) -> Seq<u8> {
        self.bytes@
    }
}

/// The hexadecimal digit at position `i` of the canonical form of `bytes`.
pub open spec fn hex_at(bytes: Seq<u8>, i: int) -> char {
    if i % 2 == 0 {
        hex_digit(bytes[i / 2] as int / 16)
    } else {
        hex_digit(bytes[i / 2] as int % 16)
    }
}

/// The number that a sequence of bytes writes, the most significant byte
/// first.
pub open spec fn value_of(s: Seq<u8>) -> nat
    decreases s.len(),
{
    if s.len() == 0 {
        0
    } else {
        value_of(s.drop_last()) * 256 + s.last() as nat
    }
}

/// The power of 256 with the given exponent.
pub open spec fn pow256(n: nat) -> nat
    decreases n,
{
    if n == 0 {
        1
    } else {
        256 * pow256((n - 1) as nat)
    }
}

/// The number of ids: ids count modulo this number.
pub open spec fn oid_limit() -> nat {
    pow256(OID_LEN as nat)
}

/// The number written by two sequences of bytes, one behind the other.
pub proof fn lemma_value_concat(a: Seq<u8>, b: Seq<u8>)
    ensures
        value_of(a + b) == value_of(a) * pow256(b.len()) + value_of(b),
    decreases b.len(),
{
    if b.len() == 0 {
        assert(pow256(0) == 1);
    } else {
        assert((a + b).drop_last() =~= a + b.drop_last());
        lemma_value_concat(a, b.drop_last());
        let x = value_of(a) as int;
        let y = value_of(b.drop_last()) as int;
        let p = pow256((b.len() - 1) as nat) as int;
        assert((x * p + y) * 256 == x * (256 * p) + y * 256) by (nonlinear_arith);
    }
}

/// Two sequences of bytes of one length that write the same number are the
/// same sequence.
pub proof fn lemma_value_of_injective(a: Seq<u8>, b: Seq<u8>)
    requires
        a.len() == b.len(),
        value_of(a) == value_of(b),
    ensures
        a == b,
    decreases a.len(),
{
    if a.len() > 0 {
        lemma_value_of_injective(a.drop_last(), b.drop_last());
        assert(a =~= a.drop_last().push(a.last()));
    }
}

/// A single byte writes its own value.
pub proof fn lemma_value_single(x: u8)
    ensures
        value_of(seq![x]) == x,
{
    assert(seq![x].drop_last() =~= Seq::<u8>::empty());
    assert(value_of(Seq::<u8>::empty()) == 0);
}

/// A sequence of bytes writes a number below the power of 256 of its
/// length.
pub proof fn lemma_value_bound(s: Seq<u8>)
    ensures
        value_of(s) < pow256(s.len()),
    decreases s.len(),
{
    if s.len() > 0 {
        lemma_value_bound(s.drop_last());
    }
}

/// The first place from `from` on at which two different sequences of
/// bytes differ.
proof fn first_difference(a: Seq<u8>, b: Seq<u8>, from: int) -> (k: int)
    requires
        a.len() == OID_LEN,
        b.len() == OID_LEN,
        0 <= from <= OID_LEN,
        forall|j: int| 0 <= j < from ==> a[j] == b[j],
        exists|j: int| 0 <= j < OID_LEN && a[j] != b[j],
    ensures
        0 <= k < OID_LEN,
        a[k] != b[k],
        forall|j: int| 0 <= j < k ==> a[j] == b[j],
    decreases OID_LEN - from,
{
    if from < OID_LEN && a[from] != b[from] {
        from
    } else {
        first_difference(a, b, from + 1)
    }
}

/// The value of a hexadecimal digit.
pub open spec fn hex_number(c: char) -> int {
    choose|n: int| 0 <= n < 16 && hex_digit(n) == c
}

/// The bytes that write a number in a given length, the most significant
/// byte first.
pub open spec fn bytes_of(v: nat, len: nat) -> Seq<u8>
    decreases len,
{
    if len == 0 {
        Seq::empty()
    } else {
        bytes_of(v / 256, (len - 1) as nat).push((v % 256) as u8)
    }
}

/// A number below the power of 256 of a length is written by its bytes of
/// that length.
pub proof fn lemma_bytes_of(v: nat, len: nat)
    requires
        v < pow256(len),
    ensures
        bytes_of(v, len).len() == len,
        value_of(bytes_of(v, len)) == v,
    decreases len,
{
    if len > 0 {
        let rest = bytes_of(v / 256, (len - 1) as nat);
        assert(v / 256 < pow256((len - 1) as nat)) by (nonlinear_arith)
            requires
                v < 256 * pow256((len - 1) as nat),
        ;
        lemma_bytes_of(v / 256, (len - 1) as nat);
        assert(bytes_of(v, len).drop_last() =~= rest);
    }
}

/// Bytes that are all zero write the number zero.
pub proof fn lemma_value_zero(s: Seq<u8>)
    requires
        forall|i: int| 0 <= i < s.len() ==> s[i] == 0,
    ensures
        value_of(s) == 0,
    decreases s.len(),
{
    if s.len() > 0 {
        lemma_value_zero(s.drop_last());
    }
}

/// The powers of 256 are positive.
pub proof fn lemma_pow256_positive(n: nat)
    ensures
        pow256(n) >= 1,
    decreases n,
{
    if n > 0 {
        lemma_pow256_positive((n - 1) as nat);
    }
}

/// An array that agrees with `b` on its first `k` places.
proof fn array_with(b: Seq<u8>, k: nat) -> (a: [u8; 20])
    requires
        b.len() == OID_LEN,
        k <= OID_LEN,
    ensures
        forall|j: int| 0 <= j < k ==> a@[j] == b[j],
    decreases k,
{
    broadcast use vstd::array::group_array_axioms;

    if k == 0 {
        vstd::array::spec_array_fill_for_copy_type::<u8, 20>(0u8)
    } else {
        let p = array_with(b, (k - 1) as nat);
        let a = vstd::array::spec_array_update(p, k - 1, b[k - 1]);
        a
    }
}

impl Oid {
    /// The canonical form of the id: forty lowercase hexadecimal digits, the
    /// high half of each byte first.
    pub open spec fn hex(self) -> Seq<char> {
        Seq::new(HEX_LEN as nat, |i: int| hex_at(self@, i))
    }

    /// The id whose canonical form is `s`, if `s` is a canonical form.
    pub open spec fn parse_hex(s: Seq<char>) -> Option<Oid> {
        if is_hex_id(s) {
            Some(choose|o: Oid| o.hex() == s)
        } else {
            None
        }
    }

    /// The id made of the given bytes.
    pub fn from_bytes(bytes: [u8; 20]) -> (r: Oid)
        ensures
            r.bytes == bytes,
    {
        Oid { bytes }
    }

    /// The bytes of the id.
    pub fn as_bytes(&self) -> (r: &[u8; 20])
        ensures
            *r == self.bytes,
    {
        &self.bytes
    }

    /// The id all of whose bytes are zero: the number zero.
    pub fn zero() -> (r: Oid)
        ensures
            forall|i: int| 0 <= i < OID_LEN ==> r@[i] == 0,
            r.value() == 0,
    {
        let r = Oid { bytes: [0u8; 20] };
        proof {
            lemma_value_zero(r@);
        }
        r
    }

    /// Two ids with the same bytes are the same id.
    pub proof fn lemma_view_injective(a: Oid, b: Oid)
        requires
            a@ == b@,
        ensures
            a == b,
    {
        assert(a.bytes =~= b.bytes);
    }

    /// Two ids with the same canonical form are the same id.
    pub proof fn lemma_hex_injective(a: Oid, b: Oid)
        requires
            a.hex() == b.hex(),
        ensures
            a == b,
    {
        assert forall|k: int| 0 <= k < OID_LEN implies a@[k] == b@[k] by {
            assert(a.hex()[2 * k] == hex_at(a@, 2 * k));
            assert(a.hex()[2 * k + 1] == hex_at(a@, 2 * k + 1));
        }
        assert(a.bytes =~= b.bytes);
    }

    /// The canonical form of an id is a canonical form.
    pub proof fn lemma_hex_is_hex_id(self)
        ensures
            is_hex_id(self.hex()),
    {
    }

    /// Parsing the canonical form of an id gives the id back.
    pub proof fn lemma_parse_hex_of_hex(self)
        ensures
            Oid::parse_hex(self.hex()) == Some(self),
    {
        self.lemma_hex_is_hex_id();
        let o = choose|o: Oid| o.hex() == self.hex();
        Oid::lemma_hex_injective(o, self);
    }

    /// Every canonical form is the canonical form of some id.
    pub proof fn lemma_parse_hex_some(s: Seq<char>)
        requires
            is_hex_id(s),
        ensures
            Oid::parse_hex(s) matches Some(o) && o.hex() == s,
    {
        let b = Seq::new(OID_LEN as nat, |k: int| (hex_number(s[2 * k]) * 16 + hex_number(s[2 * k + 1])) as u8);
        let a = array_with(b, OID_LEN as nat);
        let o = Oid { bytes: a };
        assert(o@ =~= b);
        assert(o.hex() =~= s);
    }

    /// Compare two ids byte by byte.
    pub fn same(&self, other: &Oid) -> (r: bool)
        ensures
            r == (*self == *other),
    {
        let mut i: usize = 0;
        while i < 20
            invariant
                i <= 20,
                forall|j: int| 0 <= j < i ==> self.bytes[j] == other.bytes[j],
            decreases 20 - i,
        {
            if self.bytes[i] != other.bytes[i] {
                return false;
            }
            i += 1;
        }
        assert(self.bytes =~= other.bytes);
        true
    }

    /// The id as a number, the first byte being the most significant.
    pub open spec fn value(self) -> nat {
        value_of(self@)
    }

    /// Two ids that are the same number are the same id.
    pub proof fn lemma_value_injective(a: Oid, b: Oid)
        requires
            a.value() == b.value(),
        ensures
            a == b,
    {
        lemma_value_of_injective(a@, b@);
        Oid::lemma_view_injective(a, b);
    }

    /// The id that is `n` steps further in the count of ids, which wraps
    /// around at the number of ids.
    pub open spec fn plus(self, n: nat) -> Oid {
        choose|o: Oid| #[trigger] o.value() == (self.value() + n) % oid_limit()
    }

    /// Every number below the number of ids is written by an id: counting
    /// on from an id gives the id of the sum, modulo the number of ids.
    pub proof fn lemma_plus(self, n: nat)
        ensures
            self.plus(n).value() == (self.value() + n) % oid_limit(),
    {
        lemma_pow256_positive(OID_LEN as nat);
        let v = ((self.value() + n) % oid_limit()) as nat;
        lemma_bytes_of(v, OID_LEN as nat);
        let b = bytes_of(v, OID_LEN as nat);
        let o = Oid { bytes: array_with(b, OID_LEN as nat) };
        assert(o@ =~= b);
        assert(o.value() == v);
    }

    /// Add a small number to the id, as a number of twenty bytes. The sum
    /// wraps around at the number of ids.
    pub fn advance(&mut self, rhs: u8)
        ensures
            final(self).value() == (old(self).value() + rhs as nat) % oid_limit(),
            *final(self) == old(self).plus(rhs as nat),
    {
        let ghost before = self@;
        let mut carry: u16 = rhs as u16;
        let mut i: usize = 20;
        proof {
            assert(pow256(0) == 1);
            assert(carry as nat * pow256(0) == rhs as nat);
        }
        while i > 0
            invariant
                i <= 20,
                carry <= 255,
                before.len() == 20,
                self@.subrange(0, i as int) == before.subrange(0, i as int),
                value_of(self@.subrange(i as int, 20)) + carry as nat * pow256((20 - i) as nat)
                    == value_of(before.subrange(i as int, 20)) + rhs as nat,
            decreases i,
        {
            let ghost prev = self@;
            let sum: u16 = self.bytes[i - 1] as u16 + carry;
            let low: u8 = (sum % 256) as u8;
            self.bytes[i - 1] = low;
            proof {
                let k = (i - 1) as int;
                let p = pow256((20 - i) as nat) as int;
                let tail_new = self@.subrange(i as int, 20);
                let tail_old = before.subrange(i as int, 20);
                assert(tail_new =~= prev.subrange(i as int, 20));
                assert(self@.subrange(k, 20) =~= seq![low] + tail_new);
                assert(before.subrange(k, 20) =~= seq![before[k]] + tail_old);
                lemma_value_concat(seq![low], tail_new);
                lemma_value_concat(seq![before[k]], tail_old);
                lemma_value_single(low);
                lemma_value_single(before[k]);
                assert(prev[k] == before[k]) by {
                    assert(prev.subrange(0, i as int)[k] == before.subrange(0, i as int)[k]);
                }
                let s = sum as int;
                assert((s % 256) * p + (s / 256) * (256 * p) == s * p) by (nonlinear_arith)
                    requires
                        0 <= s,
                {
                }
                assert(s * p == before[k] * p + carry * p) by (nonlinear_arith)
                    requires
                        s == before[k] + carry,
                ;
            }
            carry = sum / 256;
            i -= 1;
        }
        proof {
            assert(self@.subrange(0, 20) =~= self@);
            assert(before.subrange(0, 20) =~= before);
            lemma_value_bound(self@);
            let m = oid_limit() as int;
            let x = value_of(before) + rhs as nat;
            let r = value_of(self@) as int;
            let c = carry as int;
            vstd::arithmetic::div_mod::lemma_fundamental_div_mod_converse(x as int, m, c, r);
            let other = old(self).plus(rhs as nat);
            Oid::lemma_value_injective(*self, other);
        }
    }

    /// Whether this id comes before `other` in the order of ids: byte by
    /// byte, the first difference decides.
    pub open spec fn precedes_spec(self, other: Oid) -> bool {
        exists|k: int|
            0 <= k < OID_LEN && self@[k] < other@[k] && forall|j: int|
                0 <= j < k ==> self@[j] == other@[j]
    }

    /// Whether this id comes before `other` in the order of ids.
    pub fn precedes(&self, other: &Oid) -> (r: bool)
        ensures
            r == self.precedes_spec(*other),
    {
        let mut i: usize = 0;
        while i < 20
            invariant
                i <= 20,
                forall|j: int| 0 <= j < i ==> self@[j] == other@[j],
            decreases 20 - i,
        {
            if self.bytes[i] < other.bytes[i] {
                assert(self@[i as int] < other@[i as int]);
                return true;
            }
            if self.bytes[i] > other.bytes[i] {
                return false;
            }
            i += 1;
        }
        false
    }

    /// The order of ids is strict: no id precedes itself, and of two
    /// different ids exactly one precedes the other.
    pub proof fn lemma_order_total(a: Oid, b: Oid)
        ensures
            !a.precedes_spec(a),
            a != b ==> (a.precedes_spec(b) <==> !b.precedes_spec(a)),
    {
        if a != b {
            if forall|j: int| 0 <= j < OID_LEN ==> a@[j] == b@[j] {
                assert(a@ =~= b@);
                Oid::lemma_view_injective(a, b);
            }
            let k = first_difference(a@, b@, 0);
        }
    }

    /// An id that precedes another is the smaller number.
    proof fn lemma_precedes_less(a: Oid, b: Oid)
        requires
            a.precedes_spec(b),
        ensures
            a.value() < b.value(),
    {
        let k = choose|k: int|
            0 <= k < OID_LEN && a@[k] < b@[k] && forall|j: int| 0 <= j < k ==> a@[j] == b@[j];
        let pre = a@.subrange(0, k);
        let ta = a@.subrange(k + 1, 20);
        let tb = b@.subrange(k + 1, 20);
        assert(a@ =~= pre.push(a@[k]) + ta);
        assert(b@ =~= pre.push(b@[k]) + tb);
        lemma_value_concat(pre.push(a@[k]), ta);
        lemma_value_concat(pre.push(b@[k]), tb);
        lemma_value_bound(ta);
        lemma_value_bound(tb);
        assert(pre.push(a@[k]).drop_last() =~= pre);
        assert(pre.push(b@[k]).drop_last() =~= pre);
        let x = value_of(pre) as int;
        let p = pow256(ta.len()) as int;
        let ha = x * 256 + a@[k];
        let hb = x * 256 + b@[k];
        assert(ha * p + p <= hb * p) by (nonlinear_arith)
            requires
                ha + 1 <= hb,
                0 <= p,
        ;
    }

    /// The order of ids is that of the numbers they write.
    pub proof fn lemma_order_is_numeric(a: Oid, b: Oid)
        ensures
            a.precedes_spec(b) <==> a.value() < b.value(),
    {
        if a.precedes_spec(b) {
            Oid::lemma_precedes_less(a, b);
        }
        if a.value() < b.value() {
            Oid::lemma_order_total(a, b);
            if b.precedes_spec(a) {
                Oid::lemma_precedes_less(b, a);
            }
        }
    }

    /// The order of ids is transitive.
    pub proof fn lemma_order_transitive(a: Oid, b: Oid, c: Oid)
        requires
            a.precedes_spec(b),
            b.precedes_spec(c),
        ensures
            a.precedes_spec(c),
    {
    }

    /// Write the id in its canonical form.
    pub fn to_hex(&self) -> (r: String)
        ensures
            r@ == self.hex(),
    {
        let mut out = String::new();
        let mut i: usize = 0;
        while i < 20
            invariant
                i <= 20,
                out@ == self.hex().take(2 * i as int),
            decreases 20 - i,
        {
            let b: u8 = self.bytes[i];
            let hi: u8 = b / 16;
            let lo: u8 = b % 16;
            out.append(hex_digit_str(hi));
            out.append(hex_digit_str(lo));
            i += 1;
        }
        out
    }

    /// Read an id from its canonical form.
    ///
    /// Any other string is no id: one of another length, or with a
    /// character that is no lowercase hexadecimal digit.
    pub fn from_hex(s: &str) -> (r: Option<Oid>)
        ensures
            r == Oid::parse_hex(s@),
    {
        let chars = chars_of(s);
        if chars.len() != 40 {
            return None;
        }
        assert(chars@.subrange(0, 40) =~= s@);
        Oid::from_hex_chars(&chars, 0)
    }

    /// Read an id from forty characters of `chars`, starting at `start`.
    pub fn from_hex_chars(chars: &Vec<char>, start: usize) -> (r: Option<Oid>)
        requires
            start + HEX_LEN <= chars.len(),
        ensures
            r == Oid::parse_hex(chars@.subrange(start as int, start + HEX_LEN)),
    {
        let ghost s = chars@.subrange(start as int, start + HEX_LEN);
        let mut bytes: [u8; 20] = [0u8; 20];
        let mut i: usize = 0;
        while i < 20
            invariant
                i <= 20,
                start + HEX_LEN <= chars.len(),
                s == chars@.subrange(start as int, start + HEX_LEN),
                forall|k: int| 0 <= k < 2 * i ==> #[trigger] s[k] == hex_at(bytes@, k),
            decreases 20 - i,
        {
            let hi = hex_value(chars[start + 2 * i]);
            let lo = hex_value(chars[start + 2 * i + 1]);
            match (hi, lo) {
                (Some(h), Some(l)) => {
                    bytes[i] = h * 16 + l;
                },
                _ => {
                    proof {
                        assert(s[2 * i as int] == chars@[start + 2 * i]);
                        assert(s[2 * i as int + 1] == chars@[start + 2 * i + 1]);
                    }
                    return None;
                },
            }
            i += 1;
        }
        let oid = Oid { bytes };
        proof {
            assert(oid.hex() =~= s);
            oid.lemma_parse_hex_of_hex();
        }
        Some(oid)
    }
}

/// The abstract state of a repository, on which all capabilities agree.
///
/// A type that offers only some of the capabilities leaves the rest of the
/// state empty.
pub trait Base {
    /// The known messages, by id.
    spec fn commits(&self) -> Map<Oid, CommitView>;

    /// The references, by name, with their targets. A symbolic or broken
    /// reference has no target.
    spec fn refs(&self) -> Map<Seq<char>, Option<Oid>>;

    /// The names of the configured remotes.
    spec fn remotes(&self) -> Seq<Seq<u8>>;

    /// Whether operations fail only for reasons that the abstract state
    /// shows: an id that is not known, a name that is taken.
    spec fn reliable(&self) -> bool;

    /// A repository holds finitely many messages and references.
    proof fn lemma_finite(&self)
        ensures
            self.commits().dom().finite(),
            self.refs().dom().finite(),
    ;
}

/// Whether a list of ids holds the given id.
pub fn contains_id(ids: &Vec<Oid>, id: &Oid) -> (r: bool)
    ensures
        r == ids@.contains(*id),
{
    let mut i: usize = 0;
    while i < ids.len()
        invariant
            i <= ids.len(),
            forall|j: int| 0 <= j < i ==> ids@[j] != *id,
        decreases ids.len() - i,
    {
        if ids[i].same(id) {
            return true;
        }
        i += 1;
    }
    false
}

/// Collect the characters of a string.
pub fn chars_of(s: &str) -> (r: Vec<char>)
    ensures
        r@ == s@,
{
    let mut out: Vec<char> = Vec::new();
    for c in it: s.chars()
        invariant
            out@ == it.seq().take(it.index() as int),
    {
        out.push(c);
    }
    out
}

} // verus!
