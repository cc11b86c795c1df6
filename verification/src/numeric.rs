//! Big-endian byte strings read as unsigned integers: the numeric backbone
//! shared by the 256-bit target arithmetic, hashing and the wire codec.
use vstd::arithmetic::div_mod::{lemma_div_denominator, lemma_mod_breakdown};
use vstd::prelude::*;

verus! {

/// 256 raised to the given power: the weight of one more big-endian byte.
pub open spec fn pow256(n: nat) -> nat
    decreases n,
{
    if n == 0 {
        1
    } else {
        256 * pow256((n - 1) as nat)
    }
}

/// The unsigned integer a big-endian byte string denotes.
pub open spec fn nat_of(s: Seq<u8>) -> nat
    decreases s.len(),
{
    if s.len() == 0 {
        0
    } else {
        (nat_of(s.drop_last()) * 256 + s.last()) as nat
    }
}

/// The `w` big-endian bytes of `v % 256^w`.
pub open spec fn bytes_of(v: nat, w: nat) -> Seq<u8> {
    Seq::new(w, |i: int| ((v / pow256((w - 1 - i) as nat)) % 256) as u8)
}

pub proof fn lemma_pow256_adds(a: nat, b: nat)
    ensures
        pow256(a + b) == pow256(a) * pow256(b),
    decreases a,
{
    if a == 0 {
        assert(pow256(0 + b) == 1 * pow256(b)) by (nonlinear_arith)
            requires
                pow256(0 + b) == pow256(b),
        ;
    } else {
        lemma_pow256_adds((a - 1) as nat, b);
        assert(256 * (pow256((a - 1) as nat) * pow256(b)) == (256 * pow256((a - 1) as nat))
            * pow256(b)) by (nonlinear_arith);
    }
}

pub proof fn lemma_pow256_pos(n: nat)
    ensures
        pow256(n) >= 1,
    decreases n,
{
    if n > 0 {
        lemma_pow256_pos((n - 1) as nat);
    }
}

/// Every byte string denotes less than 256 to its length.
pub proof fn lemma_nat_of_bound(s: Seq<u8>)
    ensures
        nat_of(s) < pow256(s.len()),
    decreases s.len(),
{
    if s.len() > 0 {
        lemma_nat_of_bound(s.drop_last());
        assert(nat_of(s.drop_last()) * 256 + 255 < 256 * pow256((s.len() - 1) as nat))
            by (nonlinear_arith)
            requires
                nat_of(s.drop_last()) < pow256((s.len() - 1) as nat),
        ;
    }
}

/// Splitting a byte string splits its value by place value.
pub proof fn lemma_nat_of_split(s: Seq<u8>, i: int)
    requires
        0 <= i <= s.len(),
    ensures
        nat_of(s) == nat_of(s.take(i)) * pow256((s.len() - i) as nat) + nat_of(s.skip(i)),
    decreases s.len() - i,
{
    if i == s.len() {
        assert(s.take(i) == s);
        assert(nat_of(s) == nat_of(s) * 1 + 0) by (nonlinear_arith);
    } else {
        lemma_nat_of_split(s, i + 1);
        assert(s.take(i + 1).drop_last() =~= s.take(i));
        assert(s.take(i + 1).last() == s[i]);
        lemma_nat_of_first_digit(s, i);
        let w = (s.len() - i - 1) as nat;
        assert((nat_of(s.take(i)) * 256 + s[i]) * pow256(w) == nat_of(s.take(i)) * (256 * pow256(w))
            + s[i] * pow256(w)) by (nonlinear_arith);
    }
}

/// Peeling the most significant byte off a suffix.
proof fn lemma_nat_of_first_digit(s: Seq<u8>, i: int)
    requires
        0 <= i < s.len(),
    ensures
        nat_of(s.skip(i)) == s[i] * pow256((s.len() - i - 1) as nat) + nat_of(s.skip(i + 1)),
    decreases s.len() - i,
{
    let t = s.skip(i);
    if i + 1 == s.len() {
        assert(t.drop_last() =~= Seq::<u8>::empty());
        assert(nat_of(Seq::<u8>::empty()) == 0);
        assert(t.last() == s[i]);
        assert(nat_of(t) == 0 * 256 + s[i]);
        assert(s[i] * pow256(0) == s[i]) by (nonlinear_arith)
            requires
                pow256(0nat) == 1,
        ;
        assert(s.skip(i + 1) =~= Seq::<u8>::empty());
    } else {
        lemma_nat_of_first_digit(s.drop_last(), i);
        assert(s.drop_last().skip(i) =~= t.drop_last());
        assert(s.drop_last().skip(i + 1) =~= s.skip(i + 1).drop_last());
        let w = (s.len() - i - 2) as nat;
        // nat_of(t.drop_last()) == s[i] * pow256(w) + nat_of(s.skip(i+1).drop_last())
        assert(nat_of(t) == nat_of(t.drop_last()) * 256 + s.last());
        assert((s[i] * pow256(w) + nat_of(s.skip(i + 1).drop_last())) * 256 == s[i] * (pow256(w)
            * 256) + nat_of(s.skip(i + 1).drop_last()) * 256) by (nonlinear_arith);
        assert(pow256(w) * 256 == pow256((w + 1) as nat)) by {
            assert(pow256((w + 1) as nat) == 256 * pow256(w));
            assert(pow256(w) * 256 == 256 * pow256(w)) by (nonlinear_arith);
        }
    }
}

/// Equal values written in the same width are the same bytes.
pub proof fn lemma_nat_of_injective(a: Seq<u8>, b: Seq<u8>)
    requires
        a.len() == b.len(),
        nat_of(a) == nat_of(b),
    ensures
        a == b,
    decreases a.len(),
{
    if a.len() > 0 {
        lemma_nat_of_bound(a.drop_last());
        lemma_nat_of_bound(b.drop_last());
        assert(nat_of(a.drop_last()) == nat_of(b.drop_last()) && a.last() == b.last())
            by (nonlinear_arith)
            requires
                nat_of(a.drop_last()) * 256 + a.last() == nat_of(b.drop_last()) * 256 + b.last(),
                a.last() < 256,
                b.last() < 256,
        ;
        lemma_nat_of_injective(a.drop_last(), b.drop_last());
        assert forall|i: int| 0 <= i < a.len() implies a[i] == b[i] by {
            if i < a.len() - 1 {
                assert(a[i] == a.drop_last()[i]);
                assert(b[i] == b.drop_last()[i]);
            }
        }
        assert(a =~= b);
    } else {
        assert(a =~= b);
    }
}

/// A prepended zero byte does not change the value.
pub proof fn lemma_nat_of_leading_zero(s: Seq<u8>)
    requires
        s.len() > 0,
        s[0] == 0,
    ensures
        nat_of(s) == nat_of(s.skip(1)),
{
    lemma_nat_of_first_digit(s, 0);
    assert(s.skip(0) =~= s);
    assert(0 * pow256((s.len() - 1) as nat) == 0) by (nonlinear_arith);
}

/// On equal widths, numeric order is lexicographic order: the first
/// differing byte decides.
pub proof fn lemma_nat_of_lex(a: Seq<u8>, b: Seq<u8>, i: int)
    requires
        a.len() == b.len(),
        0 <= i < a.len(),
        a.take(i) == b.take(i),
        a[i] < b[i],
    ensures
        nat_of(a) < nat_of(b),
{
    lemma_nat_of_split(a, i);
    lemma_nat_of_split(b, i);
    lemma_nat_of_first_digit(a, i);
    lemma_nat_of_first_digit(b, i);
    let w = (a.len() - i - 1) as nat;
    lemma_nat_of_bound(a.skip(i + 1));
    lemma_pow256_pos(w);
    assert(a[i] * pow256(w) + nat_of(a.skip(i + 1)) < b[i] * pow256(w) + nat_of(b.skip(i + 1)))
        by (nonlinear_arith)
        requires
            a[i] < b[i],
            nat_of(a.skip(i + 1)) < pow256(w),
            pow256(w) >= 1,
            nat_of(b.skip(i + 1)) >= 0,
    ;
}

/// The value of `bytes_of(v, w)` is `v % 256^w`.
pub proof fn lemma_bytes_of_nat(v: nat, w: nat)
    ensures
        nat_of(bytes_of(v, w)) == v % pow256(w),
    decreases w,
{
    let s = bytes_of(v, w);
    if w == 0 {
        assert(v % 1 == 0) by (nonlinear_arith);
    } else {
        lemma_bytes_of_nat(v / 256, (w - 1) as nat);
        assert(s.drop_last() =~= bytes_of(v / 256, (w - 1) as nat)) by {
            assert forall|i: int| 0 <= i < w - 1 implies s.drop_last()[i] == bytes_of(
                v / 256,
                (w - 1) as nat,
            )[i] by {
                lemma_pow256_pos((w - 2 - i) as nat);
                lemma_div_denominator(v as int, 256, pow256((w - 2 - i) as nat) as int);
                assert(256 * pow256((w - 2 - i) as nat) == pow256((w - 1 - i) as nat));
            }
        }
        assert(s.last() == (v / pow256(0)) % 256);
        assert(v / pow256(0) == v) by {
            assert(pow256(0nat) == 1);
            assert(v / 1 == v) by (nonlinear_arith);
        }
        // v % 256^w == 256 * (v/256 % 256^(w-1)) + v % 256
        lemma_pow256_pos((w - 1) as nat);
        lemma_mod_breakdown(v as int, 256, pow256((w - 1) as nat) as int);
        assert(256 * pow256((w - 1) as nat) == pow256(w));
        assert((v / 256 % pow256((w - 1) as nat)) * 256 == 256 * (v / 256 % pow256((w - 1) as nat)))
            by (nonlinear_arith);
    }
}

/// The value a width is exactly representable in stays unchanged.
pub proof fn lemma_bytes_of_exact(v: nat, w: nat)
    requires
        v < pow256(w),
    ensures
        nat_of(bytes_of(v, w)) == v,
{
    lemma_bytes_of_nat(v, w);
    vstd::arithmetic::div_mod::lemma_small_mod(v, pow256(w));
}

/// Small powers of 256, as machine constants.
pub proof fn lemma_pow256_units()
    ensures
        pow256(1) == 0x100,
        pow256(2) == 0x1_0000,
        pow256(4) == 0x1_0000_0000,
        pow256(8) == 0x1_0000_0000_0000_0000,
        pow256(16) == 0x1_0000_0000_0000_0000_0000_0000_0000_0000,
{
    assert(pow256(0nat) == 1);
    assert(pow256(1nat) == 256 * pow256(0nat));
    assert(pow256(2nat) == 256 * pow256(1nat));
    assert(pow256(3nat) == 256 * pow256(2nat));
    assert(pow256(4nat) == 256 * pow256(3nat));
    assert(pow256(5nat) == 256 * pow256(4nat));
    assert(pow256(6nat) == 256 * pow256(5nat));
    assert(pow256(7nat) == 256 * pow256(6nat));
    assert(pow256(8nat) == 256 * pow256(7nat));
    lemma_pow256_adds(8, 8);
    assert(pow256(16nat) == pow256(8nat) * pow256(8nat));
}

/// More bytes never denote a smaller range.
pub proof fn lemma_pow256_mono(a: nat, b: nat)
    requires
        a <= b,
    ensures
        pow256(a) <= pow256(b),
{
    lemma_pow256_adds(a, (b - a) as nat);
    lemma_pow256_pos(a);
    lemma_pow256_pos((b - a) as nat);
    assert(pow256(a) * pow256((b - a) as nat) >= pow256(a) * 1) by (nonlinear_arith)
        requires
            pow256((b - a) as nat) >= 1,
            pow256(a) >= 1,
    ;
}

/// Appends the `width` big-endian bytes of `v` (reduced modulo 256^width).
pub fn push_be(out: &mut Vec<u8>, v: u128, width: usize)
    requires
        width <= 16,
    ensures
        final(out)@ == old(out)@ + bytes_of(v as nat, width as nat),
{
    let ghost pre = out@;
    let ghost enc = bytes_of(v as nat, width as nat);
    // digits, least significant first
    let mut tmp: Vec<u8> = Vec::new();
    let mut x: u128 = v;
    let mut i: usize = 0;
    proof {
        assert(pow256(0nat) == 1);
        assert((v as nat) / 1 == v as nat) by (nonlinear_arith);
    }
    while i < width
        invariant
            i <= width <= 16,
            tmp@.len() == i,
            x as nat == (v as nat) / pow256(i as nat),
            enc == bytes_of(v as nat, width as nat),
            forall|j: int| 0 <= j < i ==> tmp@[j] == enc[width - 1 - j],
        decreases width - i,
    {
        tmp.push((x % 256) as u8);
        proof {
            assert(enc[width - 1 - i] == ((v as nat / pow256(i as nat)) % 256) as u8);
            lemma_pow256_pos(i as nat);
            lemma_div_denominator(v as int, pow256(i as nat) as int, 256);
            assert(256 * pow256(i as nat) == pow256((i + 1) as nat));
        }
        x = x / 256;
        i = i + 1;
    }
    let mut k: usize = 0;
    while k < width
        invariant
            k <= width <= 16,
            tmp@.len() == width,
            enc == bytes_of(v as nat, width as nat),
            forall|j: int| 0 <= j < width ==> tmp@[j] == enc[width - 1 - j],
            out@ == pre + enc.take(k as int),
        decreases width - k,
    {
        out.push(tmp[width - 1 - k]);
        proof {
            assert(out@ =~= pre + enc.take(k + 1));
        }
        k = k + 1;
    }
    proof {
        assert(enc.take(width as int) =~= enc);
    }
}

/// Reads `width` big-endian bytes starting at `pos` as an unsigned integer.
pub fn read_be(b: &Vec<u8>, pos: usize, width: usize) -> (r: u128)
    requires
        width <= 16,
        pos + width <= b@.len(),
    ensures
        r == nat_of(b@.subrange(pos as int, pos + width)),
{
    let n: usize = b.len();
    let mut acc: u128 = 0;
    let mut i: usize = 0;
    proof {
        lemma_pow256_units();
    }
    while i < width
        invariant
            i <= width <= 16,
            pos + width <= n,
            n == b@.len(),
            acc == nat_of(b@.subrange(pos as int, pos + i)),
            acc < pow256(i as nat),
            pow256(16) == 0x1_0000_0000_0000_0000_0000_0000_0000_0000,
        decreases width - i,
    {
        proof {
            assert(256 * pow256(i as nat) == pow256((i + 1) as nat));
            lemma_pow256_mono((i + 1) as nat, 16);
            assert(acc * 256 + 255 < pow256((i + 1) as nat)) by (nonlinear_arith)
                requires
                    acc < pow256(i as nat),
                    256 * pow256(i as nat) == pow256((i + 1) as nat),
            ;
            assert(b@.subrange(pos as int, pos + i + 1).drop_last() =~= b@.subrange(
                pos as int,
                pos + i,
            ));
        }
        acc = acc * 256 + (b[pos + i] as u128);
        i = i + 1;
    }
    acc
}

/// A fresh copy of a byte string.
pub fn copy_bytes(a: &Vec<u8>) -> (r: Vec<u8>)
    ensures
        r@ == a@,
{
    let mut out: Vec<u8> = Vec::new();
    let mut i: usize = 0;
    while i < a.len()
        invariant
            i <= a@.len(),
            out@ == a@.take(i as int),
        decreases a@.len() - i,
    {
        out.push(a[i]);
        proof {
            assert(out@ =~= a@.take(i + 1));
        }
        i = i + 1;
    }
    proof {
        assert(a@.take(a@.len() as int) =~= a@);
    }
    out
}

/// Byte-string equality.
pub fn bytes_eq(a: &Vec<u8>, b: &Vec<u8>) -> (r: bool)
    ensures
        r == (a@ == b@),
{
    if a.len() != b.len() {
        proof {
            assert(a@.len() != b@.len());
        }
        return false;
    }
    let mut i: usize = 0;
    while i < a.len()
        invariant
            i <= a@.len(),
            a@.len() == b@.len(),
            a@.take(i as int) == b@.take(i as int),
        decreases a@.len() - i,
    {
        if a[i] != b[i] {
            proof {
                assert(a@[i as int] != b@[i as int]);
            }
            return false;
        }
        proof {
            assert(a@.take(i + 1) =~= a@.take(i as int).push(a@[i as int]));
            assert(b@.take(i + 1) =~= b@.take(i as int).push(b@[i as int]));
        }
        i = i + 1;
    }
    proof {
        assert(a@.take(a@.len() as int) =~= a@);
        assert(b@.take(b@.len() as int) =~= b@);
    }
    true
}

/// Numeric comparison of two equally long big-endian byte strings.
pub fn le_bytes(a: &Vec<u8>, b: &Vec<u8>) -> (r: bool)
    requires
        a@.len() == b@.len(),
    ensures
        r == (nat_of(a@) <= nat_of(b@)),
{
    let mut i: usize = 0;
    while i < a.len()
        invariant
            i <= a@.len(),
            a@.len() == b@.len(),
            a@.take(i as int) == b@.take(i as int),
        decreases a@.len() - i,
    {
        if a[i] < b[i] {
            proof {
                lemma_nat_of_lex(a@, b@, i as int);
            }
            return true;
        }
        if a[i] > b[i] {
            proof {
                lemma_nat_of_lex(b@, a@, i as int);
            }
            return false;
        }
        proof {
            assert(a@.take(i + 1) =~= a@.take(i as int).push(a@[i as int]));
            assert(b@.take(i + 1) =~= b@.take(i as int).push(b@[i as int]));
        }
        i = i + 1;
    }
    proof {
        assert(a@.take(a@.len() as int) =~= a@);
        assert(b@.take(b@.len() as int) =~= b@);
    }
    true
}

/// Copies `a`, left-padded with zero bytes to length `n`; the value is kept.
pub fn pad_left(a: &Vec<u8>, n: usize) -> (r: Vec<u8>)
    requires
        a@.len() <= n,
    ensures
        r@.len() == n,
        nat_of(r@) == nat_of(a@),
        r@.skip(n - a@.len()) == a@,
{
    let pad: usize = n - a.len();
    let mut out: Vec<u8> = Vec::new();
    let mut i: usize = 0;
    while i < pad
        invariant
            i <= pad,
            out@.len() == i,
            forall|j: int| 0 <= j < i ==> out@[j] == 0u8,
        decreases pad - i,
    {
        out.push(0u8);
        i = i + 1;
    }
    let mut j: usize = 0;
    while j < a.len()
        invariant
            j <= a@.len(),
            out@.len() == pad + j,
            forall|k: int| 0 <= k < pad ==> out@[k] == 0u8,
            out@.skip(pad as int) == a@.take(j as int),
        decreases a@.len() - j,
    {
        out.push(a[j]);
        proof {
            assert(out@.skip(pad as int) =~= a@.take(j + 1));
        }
        j = j + 1;
    }
    proof {
        assert(out@.skip(pad as int) =~= a@);
        lemma_zeros_prefix(out@, pad as int);
    }
    out
}

/// Dropping leading zero bytes keeps the value.
proof fn lemma_zeros_prefix(s: Seq<u8>, n: int)
    requires
        0 <= n <= s.len(),
        forall|k: int| 0 <= k < n ==> s[k] == 0u8,
    ensures
        nat_of(s) == nat_of(s.skip(n)),
    decreases n,
{
    if n > 0 {
        lemma_nat_of_leading_zero(s);
        assert(s.skip(1).skip(n - 1) =~= s.skip(n));
        lemma_zeros_prefix(s.skip(1), n - 1);
    } else {
        assert(s.skip(0) =~= s);
    }
}

/// The last `n` bytes of a string whose value fits in `n` bytes; the value
/// is kept.
pub fn shrink_to(a: &Vec<u8>, n: usize) -> (r: Vec<u8>)
    requires
        n <= a@.len(),
        nat_of(a@) < pow256(n as nat),
    ensures
        r@.len() == n,
        nat_of(r@) == nat_of(a@),
        r@ == a@.skip(a@.len() - n),
{
    let cut: usize = a.len() - n;
    let mut out: Vec<u8> = Vec::new();
    let mut i: usize = cut;
    while i < a.len()
        invariant
            cut <= i <= a@.len(),
            out@ == a@.subrange(cut as int, i as int),
        decreases a@.len() - i,
    {
        out.push(a[i]);
        proof {
            assert(a@.subrange(cut as int, i + 1) =~= a@.subrange(cut as int, i as int).push(
                a@[i as int],
            ));
        }
        i = i + 1;
    }
    proof {
        assert(out@ =~= a@.skip(cut as int));
        lemma_nat_of_split(a@, cut as int);
        let hi = nat_of(a@.take(cut as int));
        if hi > 0 {
            lemma_pow256_pos(n as nat);
            assert(hi * pow256(n as nat) >= 1 * pow256(n as nat)) by (nonlinear_arith)
                requires
                    hi >= 1,
                    pow256(n as nat) >= 1,
            ;
            assert(false);
        }
        assert(hi * pow256(n as nat) == 0) by (nonlinear_arith)
            requires
                hi == 0,
        ;
    }
    out
}

/// Product of a big-endian byte string and a 64-bit factor, 8 bytes wider.
pub fn mul_bytes_u64(a: &Vec<u8>, m: u64) -> (r: Vec<u8>)
    ensures
        r@.len() == a@.len() + 8,
        nat_of(r@) == nat_of(a@) * m,
{
    let len: usize = a.len();
    let mut tmp: Vec<u8> = Vec::new();  // least significant digit first
    let mut carry: u128 = 0;
    let mut j: usize = 0;
    proof {
        lemma_pow256_units();
        assert(a@.skip(len as int) =~= Seq::<u8>::empty());
        assert(nat_of(Seq::<u8>::empty()) * m == 0) by (nonlinear_arith);
    }
    while j < len
        invariant
            j <= len,
            len == a@.len(),
            tmp@.len() == j,
            carry < pow256(8),
            pow256(8) == 0x1_0000_0000_0000_0000,
            nat_of(a@.skip(len - j)) * m == nat_of(tmp@.reverse()) + carry * pow256(j as nat),
        decreases len - j,
    {
        let d: u8 = a[len - 1 - j];
        proof {
            assert((d as u128) * (m as u128) + carry <= 255 * 0xFFFF_FFFF_FFFF_FFFFu128 + carry)
                by (nonlinear_arith)
                requires
                    d <= 255,
                    m <= 0xFFFF_FFFF_FFFF_FFFFu64,
            ;
        }
        let cur: u128 = (d as u128) * (m as u128) + carry;
        let ghost t0 = tmp@;
        tmp.push((cur % 256) as u8);
        proof {
            assert(tmp@.drop_last() =~= t0);
            lemma_mul_step(a@, len - 1 - j, m as nat, tmp@, carry, cur);
            assert(cur / 256 < pow256(8)) by (nonlinear_arith)
                requires
                    cur <= 255 * 0xFFFF_FFFF_FFFF_FFFFu128 + 0xFFFF_FFFF_FFFF_FFFFu128,
                    pow256(8) == 0x1_0000_0000_0000_0000,
            ;
        }
        carry = cur / 256;
        j = j + 1;
    }
    proof {
        assert(a@.skip(0) =~= a@);
        lemma_pow256_units();
    }
    // flush the carry into 8 more digits
    let mut k: usize = 0;
    while k < 8
        invariant
            k <= 8,
            len == a@.len(),
            tmp@.len() == len + k,
            carry < pow256((8 - k) as nat),
            nat_of(a@) * m == nat_of(tmp@.reverse()) + carry * pow256((len + k) as nat),
        decreases 8 - k,
    {
        let ghost t0 = tmp@;
        tmp.push((carry % 256) as u8);
        proof {
            assert(tmp@.drop_last() =~= t0);
            lemma_flush_step(a@, m as nat, tmp@, carry);
            assert(pow256((8 - k) as nat) == 256 * pow256((7 - k) as nat));
            assert(carry / 256 < pow256((7 - k) as nat)) by (nonlinear_arith)
                requires
                    carry < 256 * pow256((7 - k) as nat),
            ;
        }
        carry = carry / 256;
        k = k + 1;
    }
    proof {
        assert(carry * pow256((len + 8) as nat) == 0) by (nonlinear_arith)
            requires
                carry == 0,
        ;
    }
    // reverse into big-endian order
    let mut out: Vec<u8> = Vec::new();
    let mut i: usize = tmp.len();
    while i > 0
        invariant
            i <= tmp@.len(),
            out@ == tmp@.reverse().take(tmp@.len() - i),
        decreases i,
    {
        i = i - 1;
        out.push(tmp[i]);
        proof {
            assert(out@ =~= tmp@.reverse().take(tmp@.len() - i));
        }
    }
    proof {
        assert(out@ =~= tmp@.reverse());
    }
    out
}

/// One multiply-and-carry step, in terms of the whole-string values.
proof fn lemma_mul_step(a: Seq<u8>, idx: int, m: nat, tmp: Seq<u8>, carry: u128, cur: u128)
    requires
        0 <= idx < a.len(),
        tmp.len() == a.len() - idx,
        cur == a[idx] * m + carry,
        nat_of(a.skip(idx + 1)) * m == nat_of(tmp.drop_last().reverse()) + carry * pow256(
            (tmp.len() - 1) as nat,
        ),
        tmp.last() == cur % 256,
    ensures
        nat_of(a.skip(idx)) * m == nat_of(tmp.reverse()) + (cur / 256) * pow256(tmp.len() as nat),
{
    let j = (tmp.len() - 1) as nat;
    lemma_nat_of_first_digit(a, idx);
    // nat_of(a.skip(idx)) == a[idx] * pow256(len-idx-1) + nat_of(a.skip(idx+1))
    assert(a.len() - idx - 1 == j);
    assert(tmp.reverse() =~= tmp.drop_last().reverse().insert(0, tmp.last()));
    lemma_cons_digit(tmp.last(), tmp.drop_last().reverse());
    // nat_of(tmp.reverse()) == tmp.last() * pow256(j) + ... no: cons puts last at FRONT
    // which is the most significant digit of the reversed string.
    assert((a[idx] * pow256(j) + nat_of(a.skip(idx + 1))) * m == (a[idx] * m) * pow256(j) + nat_of(
        a.skip(idx + 1),
    ) * m) by (nonlinear_arith);
    assert(cur % 256 + 256 * (cur / 256) == cur) by (nonlinear_arith);
    assert((a[idx] * m) * pow256(j) + carry * pow256(j) == (cur % 256) * pow256(j) + (256 * (cur
        / 256)) * pow256(j)) by (nonlinear_arith)
        requires
            a[idx] * m + carry == cur,
            cur % 256 + 256 * (cur / 256) == cur,
    ;
    assert((256 * (cur / 256)) * pow256(j) == (cur / 256) * (256 * pow256(j))) by (nonlinear_arith);
    assert(256 * pow256(j) == pow256((j + 1) as nat));
}

/// One carry-flush step, in terms of the whole-string values.
proof fn lemma_flush_step(a: Seq<u8>, m: nat, tmp: Seq<u8>, carry: u128)
    requires
        tmp.len() >= 1,
        nat_of(a) * m == nat_of(tmp.drop_last().reverse()) + carry * pow256((tmp.len() - 1) as nat),
        tmp.last() == carry % 256,
    ensures
        nat_of(a) * m == nat_of(tmp.reverse()) + (carry / 256) * pow256(tmp.len() as nat),
{
    let j = (tmp.len() - 1) as nat;
    assert(tmp.reverse() =~= tmp.drop_last().reverse().insert(0, tmp.last()));
    lemma_cons_digit(tmp.last(), tmp.drop_last().reverse());
    assert(carry % 256 + 256 * (carry / 256) == carry) by (nonlinear_arith);
    assert(carry * pow256(j) == (carry % 256) * pow256(j) + (256 * (carry / 256)) * pow256(j))
        by (nonlinear_arith)
        requires
            carry % 256 + 256 * (carry / 256) == carry,
    ;
    assert((256 * (carry / 256)) * pow256(j) == (carry / 256) * (256 * pow256(j)))
        by (nonlinear_arith);
    assert(256 * pow256(j) == pow256((j + 1) as nat));
}

/// Prepending a most significant digit adds its place value.
proof fn lemma_cons_digit(d: u8, s: Seq<u8>)
    ensures
        nat_of(s.insert(0, d)) == d * pow256(s.len()) + nat_of(s),
{
    let t = s.insert(0, d);
    lemma_nat_of_first_digit(t, 0);
    assert(t.skip(0) =~= t);
    assert(t.skip(1) =~= s);
}

/// Quotient and remainder of a big-endian byte string by a 64-bit divisor;
/// the quotient keeps the dividend's width.
pub fn div_bytes_u64(a: &Vec<u8>, d: u64) -> (r: (Vec<u8>, u64))
    requires
        d > 0,
    ensures
        r.0@.len() == a@.len(),
        nat_of(r.0@) == nat_of(a@) / (d as nat),
        r.1 == nat_of(a@) % (d as nat),
{
    let mut q: Vec<u8> = Vec::new();
    let mut rem: u64 = 0;
    let mut i: usize = 0;
    proof {
        assert(a@.take(0) =~= Seq::<u8>::empty());
        assert(nat_of(Seq::<u8>::empty()) == 0);
        assert(nat_of(Seq::<u8>::empty()) * d == 0) by (nonlinear_arith);
    }
    while i < a.len()
        invariant
            i <= a@.len(),
            q@.len() == i,
            rem < d,
            nat_of(a@.take(i as int)) == nat_of(q@) * d + rem,
        decreases a@.len() - i,
    {
        let cur: u128 = (rem as u128) * 256 + (a[i] as u128);
        let qd: u128 = cur / (d as u128);
        proof {
            assert(cur < 256 * (d as u128)) by (nonlinear_arith)
                requires
                    rem < d,
                    cur == (rem as u128) * 256 + (a@[i as int] as u128),
                    a@[i as int] < 256,
            ;
            assert(cur / (d as u128) < 256) by (nonlinear_arith)
                requires
                    cur < 256 * (d as u128),
                    d > 0,
            ;
        }
        let new_rem: u128 = cur % (d as u128);
        proof {
            assert(new_rem < d) by (nonlinear_arith)
                requires
                    new_rem == cur % (d as u128),
                    d > 0,
            ;
            vstd::arithmetic::div_mod::lemma_fundamental_div_mod(cur as int, d as int);
            assert(cur == qd * d + new_rem);
            assert(a@.take(i + 1).drop_last() =~= a@.take(i as int));
            assert(a@.take(i + 1).last() == a@[i as int]);
            lemma_div_step(nat_of(a@.take(i as int)), nat_of(q@), a@[i as int] as nat, rem as nat,
                d as nat, qd as nat, new_rem as nat);
        }
        let ghost q0 = q@;
        q.push(qd as u8);
        proof {
            assert(q@.drop_last() =~= q0);
            assert(nat_of(q@) == nat_of(q0) * 256 + qd);
        }
        rem = new_rem as u64;
        i = i + 1;
    }
    proof {
        assert(a@.take(a@.len() as int) =~= a@);
        lemma_fundamental_converse(nat_of(a@), d as nat, nat_of(q@), rem as nat);
    }
    (q, rem)
}

/// One long-division step, in terms of the whole-string values.
proof fn lemma_div_step(av: nat, qv: nat, digit: nat, rem: nat, d: nat, qd: nat, new_rem: nat)
    requires
        d > 0,
        av == qv * d + rem,
        rem * 256 + digit == qd * d + new_rem,
    ensures
        av * 256 + digit == (qv * 256 + qd) * d + new_rem,
{
    assert((qv * d + rem) * 256 + digit == (qv * 256) * d + (rem * 256 + digit))
        by (nonlinear_arith);
    assert((qv * 256) * d + qd * d == (qv * 256 + qd) * d) by (nonlinear_arith);
}

/// Uniqueness of quotient and remainder.
proof fn lemma_fundamental_converse(x: nat, d: nat, q: nat, r: nat)
    requires
        d > 0,
        r < d,
        x == q * d + r,
    ensures
        q == x / d,
        r == x % d,
{
    vstd::arithmetic::div_mod::lemma_fundamental_div_mod_converse(
        x as int,
        d as int,
        q as int,
        r as int,
    );
}

} // verus!
