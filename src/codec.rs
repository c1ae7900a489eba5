//! Byte encodings of keys and values. Keys encode so that byte order is the keys'
//! own order; every encoding decodes back to the value it came from.
use vstd::prelude::*;
use vstd::slice::slice_to_vec;
use crate::order::lex_lt;

verus! {

/// `256` to the power `n`.
pub open spec fn pow256(n: nat) -> nat
    decreases n,
{
    if n == 0 {
        1
    } else {
        256 * pow256((n - 1) as nat)
    }
}

/// The big-endian number that the bytes `s` spell.
pub open spec fn be_value(s: Seq<u8>) -> nat
    decreases s.len(),
{
    if s.len() == 0 {
        0
    } else {
        s[0] as nat * pow256((s.len() - 1) as nat) + be_value(s.drop_first())
    }
}

/// `x` written as `n` big-endian bytes.
pub open spec fn be_bytes(x: nat, n: nat) -> Seq<u8>
    decreases n,
{
    if n == 0 {
        Seq::empty()
    } else {
        seq![(x / pow256((n - 1) as nat)) as u8] + be_bytes(x % pow256((n - 1) as nat), (n - 1) as nat)
    }
}

pub proof fn lemma_pow256_positive(n: nat)
    ensures
        pow256(n) > 0,
    decreases n,
{
    if n > 0 {
        lemma_pow256_positive((n - 1) as nat);
    }
}

pub proof fn lemma_pow256_values()
    ensures
        pow256(0) == 1,
        pow256(1) == 0x100,
        pow256(2) == 0x1_0000,
        pow256(4) == 0x1_0000_0000,
        pow256(6) == 0x1_0000_0000_0000,
        pow256(7) == 0x100_0000_0000_0000,
        pow256(8) == 0x1_0000_0000_0000_0000,
{
    assert(pow256(0) == 1);
    assert(pow256(1) == 0x100);
    assert(pow256(2) == 0x1_0000);
    assert(pow256(3) == 0x100_0000);
    assert(pow256(4) == 0x1_0000_0000);
    assert(pow256(5) == 0x100_0000_0000);
    assert(pow256(6) == 0x1_0000_0000_0000);
    assert(pow256(7) == 0x100_0000_0000_0000);
}

pub proof fn lemma_be_bytes_len(x: nat, n: nat)
    ensures
        be_bytes(x, n).len() == n,
    decreases n,
{
    if n > 0 {
        let r = x % pow256((n - 1) as nat);
        lemma_be_bytes_len(r, (n - 1) as nat);
        lemma_pow256_positive((n - 1) as nat);
        let head = seq![(x / pow256((n - 1) as nat)) as u8];
        assert(head.len() == 1);
        assert(be_bytes(x, n) =~= head + be_bytes(r, (n - 1) as nat));
    } else {
        assert(be_bytes(x, n) =~= Seq::<u8>::empty());
    }
}

pub proof fn lemma_be_value_bound(s: Seq<u8>)
    ensures
        be_value(s) < pow256(s.len()),
    decreases s.len(),
{
    if s.len() > 0 {
        let p = pow256((s.len() - 1) as nat);
        lemma_be_value_bound(s.drop_first());
        let r = be_value(s.drop_first());
        let d = s[0] as nat;
        assert(d * p + r < 256 * p) by (nonlinear_arith)
            requires
                d <= 255,
                r < p,
        ;
    }
}

/// Writing a number that fits and reading it back gives the number.
pub proof fn lemma_be_round_trip(x: nat, n: nat)
    requires
        x < pow256(n),
    ensures
        be_value(be_bytes(x, n)) == x,
    decreases n,
{
    if n > 0 {
        let p = pow256((n - 1) as nat);
        lemma_pow256_positive((n - 1) as nat);
        let q = x / p;
        let r = x % p;
        assert(x == q * p + r && r < p) by (nonlinear_arith)
            requires
                p > 0,
                q == x / p,
                r == x % p,
        ;
        assert(q < 256) by (nonlinear_arith)
            requires
                x < 256 * p,
                x == q * p + r,
                r >= 0,
                p > 0,
        ;
        lemma_be_round_trip(r, (n - 1) as nat);
        lemma_be_bytes_len(r, (n - 1) as nat);
        let s = be_bytes(x, n);
        assert(s.drop_first() =~= be_bytes(r, (n - 1) as nat));
    } else {
        assert(pow256(0) == 1);
    }
}

/// Reading bytes and writing the number back with the same width gives the bytes.
pub proof fn lemma_be_canonical(s: Seq<u8>)
    ensures
        be_bytes(be_value(s), s.len()) == s,
    decreases s.len(),
{
    if s.len() == 0 {
        assert(be_bytes(be_value(s), 0) =~= s);
    } else {
        let n = s.len();
        let p = pow256((n - 1) as nat);
        lemma_pow256_positive((n - 1) as nat);
        lemma_be_value_bound(s.drop_first());
        let r = be_value(s.drop_first());
        let d = s[0] as nat;
        let x = be_value(s);
        assert(x / p == d && x % p == r) by {
            vstd::arithmetic::div_mod::lemma_fundamental_div_mod_converse(x as int, p as int, d as int, r as int);
        }
        lemma_be_canonical(s.drop_first());
        assert(be_bytes(x, n) =~= s);
    }
}

/// For byte strings of one width, byte order is numeric order.
pub proof fn lemma_be_order(s: Seq<u8>, t: Seq<u8>)
    requires
        s.len() == t.len(),
    ensures
        lex_lt(s, t) <==> be_value(s) < be_value(t),
    decreases s.len(),
{
    if s.len() > 0 {
        let p = pow256((s.len() - 1) as nat);
        lemma_pow256_positive((s.len() - 1) as nat);
        lemma_be_value_bound(s.drop_first());
        lemma_be_value_bound(t.drop_first());
        let rs = be_value(s.drop_first());
        let rt = be_value(t.drop_first());
        let ds = s[0] as nat;
        let dt = t[0] as nat;
        if ds < dt {
            assert(ds * p + rs < dt * p + rt) by (nonlinear_arith)
                requires
                    ds < dt,
                    rs < p,
                    rt >= 0,
            ;
        } else if ds > dt {
            assert(dt * p + rt < ds * p + rs) by (nonlinear_arith)
                requires
                    dt < ds,
                    rt < p,
                    rs >= 0,
            ;
        } else {
            lemma_be_order(s.drop_first(), t.drop_first());
        }
    }
}

/// Writes `x` as `n` big-endian bytes.
pub fn encode_be(x: u64, n: usize) -> (r: Vec<u8>)
    requires
        1 <= n <= 8,
        x < pow256(n as nat),
    ensures
        r@ == be_bytes(x as nat, n as nat),
{
    proof {
        lemma_pow256_values();
    }
    let mut p: u64 = 1;
    let mut j: usize = 1;
    while j < n
        invariant
            1 <= j <= n <= 8,
            p == pow256((j - 1) as nat),
            pow256(8) == 0x1_0000_0000_0000_0000,
            pow256(6) == 0x1_0000_0000_0000,
        decreases n - j,
    {
        proof {
            lemma_pow_mono((j - 1) as nat, 6);
            assert(pow256(j as nat) == 256 * pow256((j - 1) as nat));
        }
        p = p * 256;
        j = j + 1;
    }
    let mut out: Vec<u8> = Vec::new();
    let mut rest: u64 = x;
    let mut i: usize = 0;
    proof {
        lemma_be_bytes_len(x as nat, n as nat);
        assert(out@ + be_bytes(rest as nat, (n - i) as nat) =~= be_bytes(x as nat, n as nat));
    }
    while i < n
        invariant
            1 <= n <= 8,
            i <= n,
            rest < pow256((n - i) as nat),
            i < n ==> p == pow256((n - i - 1) as nat),
            out@ + be_bytes(rest as nat, (n - i) as nat) == be_bytes(x as nat, n as nat),
        decreases n - i,
    {
        proof {
            lemma_pow256_positive((n - i - 1) as nat);
        }
        let d = rest / p;
        let ghost k = (n - i - 1) as nat;
        proof {
            let q = rest as nat / p as nat;
            assert(q < 256) by (nonlinear_arith)
                requires
                    rest < 256 * p,
                    p > 0,
                    q == rest as nat / p as nat,
            ;
            assert(be_bytes(rest as nat, (n - i) as nat) == seq![(rest as nat / pow256(k)) as u8]
                + be_bytes(rest as nat % pow256(k), k));
        }
        let ghost prev = out@;
        out.push(d as u8);
        let ghost old_rest = rest;
        rest = rest % p;
        proof {
            assert(out@ + be_bytes(rest as nat, k) =~= prev + (seq![(old_rest as nat / pow256(k)) as u8]
                + be_bytes(old_rest as nat % pow256(k), k)));
            vstd::arithmetic::div_mod::lemma_mod_bound(old_rest as int, p as int);
        }
        if i + 1 < n {
            proof {
                assert(pow256(k) == 256 * pow256((k - 1) as nat));
            }
            p = p / 256;
        }
        i = i + 1;
    }
    proof {
        assert(be_bytes(rest as nat, 0) =~= Seq::<u8>::empty());
        assert(out@ + Seq::<u8>::empty() =~= out@);
    }
    out
}

proof fn lemma_pow_mono(a: nat, b: nat)
    requires
        a <= b,
    ensures
        pow256(a) <= pow256(b),
    decreases b,
{
    if a < b {
        lemma_pow_mono(a, (b - 1) as nat);
        lemma_pow256_positive((b - 1) as nat);
    }
}

/// Reads at most eight bytes as a big-endian number.
pub fn decode_be(b: &[u8]) -> (r: u64)
    requires
        b@.len() <= 8,
    ensures
        r as nat == be_value(b@),
{
    let n = b.len();
    proof {
        lemma_pow256_values();
        lemma_be_value_bound(b@);
        lemma_pow_mono(n as nat, 8);
    }
    if n == 0 {
        return 0;
    }
    let mut p: u64 = 1;
    let mut j: usize = 1;
    while j < n
        invariant
            1 <= j <= n <= 8,
            p == pow256((j - 1) as nat),
            pow256(8) == 0x1_0000_0000_0000_0000,
            pow256(6) == 0x1_0000_0000_0000,
        decreases n - j,
    {
        proof {
            lemma_pow_mono((j - 1) as nat, 6);
            assert(pow256(j as nat) == 256 * pow256((j - 1) as nat));
        }
        p = p * 256;
        j = j + 1;
    }
    let mut acc: u64 = 0;
    let mut i: usize = 0;
    assert(b@.subrange(0, n as int) =~= b@);
    while i < n
        invariant
            1 <= n <= 8,
            n == b@.len(),
            i <= n,
            i < n ==> p == pow256((n - i - 1) as nat),
            be_value(b@) < 0x1_0000_0000_0000_0000,
            acc + be_value(b@.subrange(i as int, n as int)) == be_value(b@),
        decreases n - i,
    {
        let ghost sub = b@.subrange(i as int, n as int);
        proof {
            assert(sub[0] == b@[i as int]);
            assert(sub.drop_first() =~= b@.subrange(i + 1, n as int));
            assert(be_value(sub) == b@[i as int] as nat * p + be_value(b@.subrange(i + 1, n as int)));
            assert(b@[i as int] as nat * p <= be_value(sub)) by (nonlinear_arith)
                requires
                    be_value(sub) == b@[i as int] as nat * p + be_value(b@.subrange(i + 1, n as int)),
            ;
        }
        acc = acc + (b[i] as u64) * p;
        if i + 1 < n {
            proof {
                let k = (n - i - 1) as nat;
                assert(pow256(k) == 256 * pow256((k - 1) as nat));
            }
            p = p / 256;
        }
        i = i + 1;
    }
    proof {
        assert(b@.subrange(n as int, n as int) =~= Seq::<u8>::empty());
    }
    acc
}

/// A type usable as an index key: it encodes to bytes whose order is the key order.
pub trait BinaryKey: View + Sized {
    /// The bytes of a key.
    spec fn key_bytes(k: Self::V) -> Seq<u8>;

    /// The key that some bytes encode, if any.
    spec fn key_of(b: Seq<u8>) -> Option<Self::V>;

    /// The order of keys.
    spec fn key_lt(a: Self::V, b: Self::V) -> bool;

    /// Decoding the bytes of a key gives the key.
    proof fn lemma_key_round_trip(k: Self::V)
        ensures
            Self::key_of(Self::key_bytes(k)) == Some(k),
    ;

    /// Bytes that decode are the bytes of what they decode to.
    proof fn lemma_key_canonical(b: Seq<u8>)
        ensures
            Self::key_of(b) matches Some(k) ==> Self::key_bytes(k) == b,
    ;

    /// Byte order of encoded keys is the order of the keys.
    proof fn lemma_key_order(a: Self::V, b: Self::V)
        ensures
            lex_lt(Self::key_bytes(a), Self::key_bytes(b)) == Self::key_lt(a, b),
    ;

    fn to_key_bytes(&self) -> (r: Vec<u8>)
        ensures
            r@ == Self::key_bytes(self@),
    ;

    fn from_key_bytes(b: &[u8]) -> (r: Option<Self>)
        ensures
            match r {
                Some(k) => Self::key_of(b@) == Some(k@),
                None => Self::key_of(b@) is None,
            },
    ;
}

/// A type usable as an index value: it encodes to bytes and decodes back.
pub trait BinaryValue: View + Sized {
    /// The bytes of a value.
    spec fn value_bytes(v: Self::V) -> Seq<u8>;

    /// The value that some bytes encode, if any.
    spec fn value_of(b: Seq<u8>) -> Option<Self::V>;

    /// Decoding the bytes of a value gives the value.
    proof fn lemma_value_round_trip(v: Self::V)
        ensures
            Self::value_of(Self::value_bytes(v)) == Some(v),
    ;

    /// Bytes that decode are the bytes of what they decode to.
    proof fn lemma_value_canonical(b: Seq<u8>)
        ensures
            Self::value_of(b) matches Some(v) ==> Self::value_bytes(v) == b,
    ;

    fn to_bytes(&self) -> (r: Vec<u8>)
        ensures
            r@ == Self::value_bytes(self@),
    ;

    fn from_bytes(b: &[u8]) -> (r: Option<Self>)
        ensures
            match r {
                Some(v) => Self::value_of(b@) == Some(v@),
                None => Self::value_of(b@) is None,
            },
    ;
}

/// The unsigned number of width `n` that bytes encode, if they have that width.
pub open spec fn unsigned_of(b: Seq<u8>, n: nat) -> Option<nat> {
    if b.len() == n {
        Some(be_value(b))
    } else {
        None
    }
}

proof fn lemma_unsigned(x: nat, n: nat, b: Seq<u8>)
    requires
        x < pow256(n),
    ensures
        unsigned_of(be_bytes(x, n), n) == Some(x),
        unsigned_of(b, n) matches Some(y) ==> be_bytes(y, n) == b && y < pow256(n),
{
    lemma_be_bytes_len(x, n);
    lemma_be_round_trip(x, n);
    if b.len() == n {
        lemma_be_canonical(b);
        lemma_be_value_bound(b);
    }
}

proof fn lemma_unsigned_order(x: nat, y: nat, n: nat)
    requires
        x < pow256(n),
        y < pow256(n),
    ensures
        lex_lt(be_bytes(x, n), be_bytes(y, n)) == (x < y),
{
    lemma_be_bytes_len(x, n);
    lemma_be_bytes_len(y, n);
    lemma_be_round_trip(x, n);
    lemma_be_round_trip(y, n);
    lemma_be_order(be_bytes(x, n), be_bytes(y, n));
}

impl BinaryKey for u8 {
    open spec fn key_bytes(k: u8) -> Seq<u8> {
        be_bytes(k as nat, 1)
    }

    open spec fn key_of(b: Seq<u8>) -> Option<u8> {
        match unsigned_of(b, 1) {
            Some(x) => Some(x as u8),
            None => None,
        }
    }

    open spec fn key_lt(a: u8, b: u8) -> bool {
        a < b
    }

    proof fn lemma_key_round_trip(k: u8) {
        lemma_pow256_values();
        lemma_unsigned(k as nat, 1, Seq::empty());
    }

    proof fn lemma_key_canonical(b: Seq<u8>) {
        lemma_pow256_values();
        lemma_unsigned(0, 1, b);
    }

    proof fn lemma_key_order(a: u8, b: u8) {
        lemma_pow256_values();
        lemma_unsigned_order(a as nat, b as nat, 1);
    }

    fn to_key_bytes(&self) -> (r: Vec<u8>) {
        proof {
            lemma_pow256_values();
        }
        encode_be(*self as u64, 1)
    }

    fn from_key_bytes(b: &[u8]) -> (r: Option<u8>) {
        if b.len() == 1 {
            proof {
                lemma_pow256_values();
                lemma_be_value_bound(b@);
            }
            Some(decode_be(b) as u8)
        } else {
            None
        }
    }
}

impl BinaryKey for u16 {
    open spec fn key_bytes(k: u16) -> Seq<u8> {
        be_bytes(k as nat, 2)
    }

    open spec fn key_of(b: Seq<u8>) -> Option<u16> {
        match unsigned_of(b, 2) {
            Some(x) => Some(x as u16),
            None => None,
        }
    }

    open spec fn key_lt(a: u16, b: u16) -> bool {
        a < b
    }

    proof fn lemma_key_round_trip(k: u16) {
        lemma_pow256_values();
        lemma_unsigned(k as nat, 2, Seq::empty());
    }

    proof fn lemma_key_canonical(b: Seq<u8>) {
        lemma_pow256_values();
        lemma_unsigned(0, 2, b);
    }

    proof fn lemma_key_order(a: u16, b: u16) {
        lemma_pow256_values();
        lemma_unsigned_order(a as nat, b as nat, 2);
    }

    fn to_key_bytes(&self) -> (r: Vec<u8>) {
        proof {
            lemma_pow256_values();
        }
        encode_be(*self as u64, 2)
    }

    fn from_key_bytes(b: &[u8]) -> (r: Option<u16>) {
        if b.len() == 2 {
            proof {
                lemma_pow256_values();
                lemma_be_value_bound(b@);
            }
            Some(decode_be(b) as u16)
        } else {
            None
        }
    }
}

impl BinaryKey for u32 {
    open spec fn key_bytes(k: u32) -> Seq<u8> {
        be_bytes(k as nat, 4)
    }

    open spec fn key_of(b: Seq<u8>) -> Option<u32> {
        match unsigned_of(b, 4) {
            Some(x) => Some(x as u32),
            None => None,
        }
    }

    open spec fn key_lt(a: u32, b: u32) -> bool {
        a < b
    }

    proof fn lemma_key_round_trip(k: u32) {
        lemma_pow256_values();
        lemma_unsigned(k as nat, 4, Seq::empty());
    }

    proof fn lemma_key_canonical(b: Seq<u8>) {
        lemma_pow256_values();
        lemma_unsigned(0, 4, b);
    }

    proof fn lemma_key_order(a: u32, b: u32) {
        lemma_pow256_values();
        lemma_unsigned_order(a as nat, b as nat, 4);
    }

    fn to_key_bytes(&self) -> (r: Vec<u8>) {
        proof {
            lemma_pow256_values();
        }
        encode_be(*self as u64, 4)
    }

    fn from_key_bytes(b: &[u8]) -> (r: Option<u32>) {
        if b.len() == 4 {
            proof {
                lemma_pow256_values();
                lemma_be_value_bound(b@);
            }
            Some(decode_be(b) as u32)
        } else {
            None
        }
    }
}

impl BinaryKey for u64 {
    open spec fn key_bytes(k: u64) -> Seq<u8> {
        be_bytes(k as nat, 8)
    }

    open spec fn key_of(b: Seq<u8>) -> Option<u64> {
        match unsigned_of(b, 8) {
            Some(x) => Some(x as u64),
            None => None,
        }
    }

    open spec fn key_lt(a: u64, b: u64) -> bool {
        a < b
    }

    proof fn lemma_key_round_trip(k: u64) {
        lemma_pow256_values();
        lemma_unsigned(k as nat, 8, Seq::empty());
    }

    proof fn lemma_key_canonical(b: Seq<u8>) {
        lemma_pow256_values();
        lemma_unsigned(0, 8, b);
    }

    proof fn lemma_key_order(a: u64, b: u64) {
        lemma_pow256_values();
        lemma_unsigned_order(a as nat, b as nat, 8);
    }

    fn to_key_bytes(&self) -> (r: Vec<u8>) {
        proof {
            lemma_pow256_values();
        }
        encode_be(*self as u64, 8)
    }

    fn from_key_bytes(b: &[u8]) -> (r: Option<u64>) {
        if b.len() == 8 {
            proof {
                lemma_pow256_values();
                lemma_be_value_bound(b@);
            }
            Some(decode_be(b) as u64)
        } else {
            None
        }
    }
}

impl BinaryKey for i32 {
    /// The number shifted by half the range, so that byte order is numeric order.
    open spec fn key_bytes(k: i32) -> Seq<u8> {
        be_bytes((k + 0x8000_0000) as nat, 4)
    }

    open spec fn key_of(b: Seq<u8>) -> Option<i32> {
        match unsigned_of(b, 4) {
            Some(x) => Some((x - 0x8000_0000) as i32),
            None => None,
        }
    }

    open spec fn key_lt(a: i32, b: i32) -> bool {
        a < b
    }

    proof fn lemma_key_round_trip(k: i32) {
        lemma_pow256_values();
        lemma_unsigned((k + 0x8000_0000) as nat, 4, Seq::empty());
    }

    proof fn lemma_key_canonical(b: Seq<u8>) {
        lemma_pow256_values();
        lemma_unsigned(0, 4, b);
    }

    proof fn lemma_key_order(a: i32, b: i32) {
        lemma_pow256_values();
        lemma_unsigned_order((a + 0x8000_0000) as nat, (b + 0x8000_0000) as nat, 4);
    }

    fn to_key_bytes(&self) -> (r: Vec<u8>) {
        proof {
            lemma_pow256_values();
        }
        let shifted = (*self as i64 + 0x8000_0000) as u64;
        encode_be(shifted, 4)
    }

    fn from_key_bytes(b: &[u8]) -> (r: Option<i32>) {
        if b.len() == 4 {
            proof {
                lemma_pow256_values();
                lemma_be_value_bound(b@);
            }
            let x = decode_be(b);
            Some((x as i64 - 0x8000_0000) as i32)
        } else {
            None
        }
    }
}

impl BinaryKey for i64 {
    /// The number shifted by half the range, so that byte order is numeric order.
    open spec fn key_bytes(k: i64) -> Seq<u8> {
        be_bytes((k + 0x8000_0000_0000_0000) as nat, 8)
    }

    open spec fn key_of(b: Seq<u8>) -> Option<i64> {
        match unsigned_of(b, 8) {
            Some(x) => Some((x - 0x8000_0000_0000_0000) as i64),
            None => None,
        }
    }

    open spec fn key_lt(a: i64, b: i64) -> bool {
        a < b
    }

    proof fn lemma_key_round_trip(k: i64) {
        lemma_pow256_values();
        lemma_unsigned((k + 0x8000_0000_0000_0000) as nat, 8, Seq::empty());
    }

    proof fn lemma_key_canonical(b: Seq<u8>) {
        lemma_pow256_values();
        lemma_unsigned(0, 8, b);
    }

    proof fn lemma_key_order(a: i64, b: i64) {
        lemma_pow256_values();
        lemma_unsigned_order((a + 0x8000_0000_0000_0000) as nat, (b + 0x8000_0000_0000_0000) as nat, 8);
    }

    fn to_key_bytes(&self) -> (r: Vec<u8>) {
        proof {
            lemma_pow256_values();
        }
        let shifted = (*self as i128 + 0x8000_0000_0000_0000) as u64;
        encode_be(shifted, 8)
    }

    fn from_key_bytes(b: &[u8]) -> (r: Option<i64>) {
        if b.len() == 8 {
            proof {
                lemma_pow256_values();
                lemma_be_value_bound(b@);
            }
            let x = decode_be(b);
            Some((x as i128 - 0x8000_0000_0000_0000) as i64)
        } else {
            None
        }
    }
}

impl BinaryValue for u8 {
    open spec fn value_bytes(v: u8) -> Seq<u8> {
        <u8 as BinaryKey>::key_bytes(v)
    }

    open spec fn value_of(b: Seq<u8>) -> Option<u8> {
        <u8 as BinaryKey>::key_of(b)
    }

    proof fn lemma_value_round_trip(v: u8) {
        <u8 as BinaryKey>::lemma_key_round_trip(v);
    }

    proof fn lemma_value_canonical(b: Seq<u8>) {
        <u8 as BinaryKey>::lemma_key_canonical(b);
    }

    fn to_bytes(&self) -> (r: Vec<u8>) {
        self.to_key_bytes()
    }

    fn from_bytes(b: &[u8]) -> (r: Option<u8>) {
        <u8 as BinaryKey>::from_key_bytes(b)
    }
}

impl BinaryValue for u16 {
    open spec fn value_bytes(v: u16) -> Seq<u8> {
        <u16 as BinaryKey>::key_bytes(v)
    }

    open spec fn value_of(b: Seq<u8>) -> Option<u16> {
        <u16 as BinaryKey>::key_of(b)
    }

    proof fn lemma_value_round_trip(v: u16) {
        <u16 as BinaryKey>::lemma_key_round_trip(v);
    }

    proof fn lemma_value_canonical(b: Seq<u8>) {
        <u16 as BinaryKey>::lemma_key_canonical(b);
    }

    fn to_bytes(&self) -> (r: Vec<u8>) {
        self.to_key_bytes()
    }

    fn from_bytes(b: &[u8]) -> (r: Option<u16>) {
        <u16 as BinaryKey>::from_key_bytes(b)
    }
}

impl BinaryValue for u32 {
    open spec fn value_bytes(v: u32) -> Seq<u8> {
        <u32 as BinaryKey>::key_bytes(v)
    }

    open spec fn value_of(b: Seq<u8>) -> Option<u32> {
        <u32 as BinaryKey>::key_of(b)
    }

    proof fn lemma_value_round_trip(v: u32) {
        <u32 as BinaryKey>::lemma_key_round_trip(v);
    }

    proof fn lemma_value_canonical(b: Seq<u8>) {
        <u32 as BinaryKey>::lemma_key_canonical(b);
    }

    fn to_bytes(&self) -> (r: Vec<u8>) {
        self.to_key_bytes()
    }

    fn from_bytes(b: &[u8]) -> (r: Option<u32>) {
        <u32 as BinaryKey>::from_key_bytes(b)
    }
}

impl BinaryValue for u64 {
    open spec fn value_bytes(v: u64) -> Seq<u8> {
        <u64 as BinaryKey>::key_bytes(v)
    }

    open spec fn value_of(b: Seq<u8>) -> Option<u64> {
        <u64 as BinaryKey>::key_of(b)
    }

    proof fn lemma_value_round_trip(v: u64) {
        <u64 as BinaryKey>::lemma_key_round_trip(v);
    }

    proof fn lemma_value_canonical(b: Seq<u8>) {
        <u64 as BinaryKey>::lemma_key_canonical(b);
    }

    fn to_bytes(&self) -> (r: Vec<u8>) {
        self.to_key_bytes()
    }

    fn from_bytes(b: &[u8]) -> (r: Option<u64>) {
        <u64 as BinaryKey>::from_key_bytes(b)
    }
}

impl BinaryValue for i32 {
    open spec fn value_bytes(v: i32) -> Seq<u8> {
        <i32 as BinaryKey>::key_bytes(v)
    }

    open spec fn value_of(b: Seq<u8>) -> Option<i32> {
        <i32 as BinaryKey>::key_of(b)
    }

    proof fn lemma_value_round_trip(v: i32) {
        <i32 as BinaryKey>::lemma_key_round_trip(v);
    }

    proof fn lemma_value_canonical(b: Seq<u8>) {
        <i32 as BinaryKey>::lemma_key_canonical(b);
    }

    fn to_bytes(&self) -> (r: Vec<u8>) {
        self.to_key_bytes()
    }

    fn from_bytes(b: &[u8]) -> (r: Option<i32>) {
        <i32 as BinaryKey>::from_key_bytes(b)
    }
}

impl BinaryValue for i64 {
    open spec fn value_bytes(v: i64) -> Seq<u8> {
        <i64 as BinaryKey>::key_bytes(v)
    }

    open spec fn value_of(b: Seq<u8>) -> Option<i64> {
        <i64 as BinaryKey>::key_of(b)
    }

    proof fn lemma_value_round_trip(v: i64) {
        <i64 as BinaryKey>::lemma_key_round_trip(v);
    }

    proof fn lemma_value_canonical(b: Seq<u8>) {
        <i64 as BinaryKey>::lemma_key_canonical(b);
    }

    fn to_bytes(&self) -> (r: Vec<u8>) {
        self.to_key_bytes()
    }

    fn from_bytes(b: &[u8]) -> (r: Option<i64>) {
        <i64 as BinaryKey>::from_key_bytes(b)
    }
}

/// Raw bytes are their own encoding.
impl BinaryValue for Vec<u8> {
    open spec fn value_bytes(v: Seq<u8>) -> Seq<u8> {
        v
    }

    open spec fn value_of(b: Seq<u8>) -> Option<Seq<u8>> {
        Some(b)
    }

    proof fn lemma_value_round_trip(v: Seq<u8>) {
    }

    proof fn lemma_value_canonical(b: Seq<u8>) {
    }

    fn to_bytes(&self) -> (r: Vec<u8>) {
        let r = self.clone();
        assert(r@ =~= self@);
        r
    }

    fn from_bytes(b: &[u8]) -> (r: Option<Vec<u8>>) {
        Some(slice_to_vec(b))
    }
}

/// The unit value is stored as no bytes at all, as in key sets.
impl BinaryValue for () {
    open spec fn value_bytes(v: ()) -> Seq<u8> {
        Seq::empty()
    }

    open spec fn value_of(b: Seq<u8>) -> Option<()> {
        if b.len() == 0 {
            Some(())
        } else {
            None
        }
    }

    proof fn lemma_value_round_trip(v: ()) {
    }

    proof fn lemma_value_canonical(b: Seq<u8>) {
        if b.len() == 0 {
            assert(b =~= Seq::<u8>::empty());
        }
    }

    fn to_bytes(&self) -> (r: Vec<u8>) {
        Vec::new()
    }

    fn from_bytes(b: &[u8]) -> (r: Option<()>) {
        if b.len() == 0 {
            Some(())
        } else {
            None
        }
    }
}

/// A boolean is one byte, `0` or `1`.
impl BinaryValue for bool {
    open spec fn value_bytes(v: bool) -> Seq<u8> {
        if v {
            seq![1u8]
        } else {
            seq![0u8]
        }
    }

    open spec fn value_of(b: Seq<u8>) -> Option<bool> {
        if b.len() == 1 && b[0] == 0 {
            Some(false)
        } else if b.len() == 1 && b[0] == 1 {
            Some(true)
        } else {
            None
        }
    }

    proof fn lemma_value_round_trip(v: bool) {
    }

    proof fn lemma_value_canonical(b: Seq<u8>) {
        if b.len() == 1 {
            assert(b =~= seq![b[0]]);
        }
    }

    fn to_bytes(&self) -> (r: Vec<u8>) {
        if *self {
            vec![1u8]
        } else {
            vec![0u8]
        }
    }

    fn from_bytes(b: &[u8]) -> (r: Option<bool>) {
        if b.len() == 1 && b[0] == 0 {
            Some(false)
        } else if b.len() == 1 && b[0] == 1 {
            Some(true)
        } else {
            None
        }
    }
}

} // verus!
