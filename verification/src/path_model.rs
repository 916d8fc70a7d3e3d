//! Arithmetic model of octant paths: a path is a sequence of octants (values
//! below 8), root first, stored as a base-8 number behind a leading marker digit.
use vstd::prelude::*;
use vstd::arithmetic::power2::{pow2, lemma_pow2_adds, lemma_pow2_pos, lemma2_to64};
use vstd::arithmetic::div_mod::{lemma_fundamental_div_mod_converse, lemma_mod_breakdown};
use vstd::arithmetic::mul::{lemma_mul_is_distributive_add, lemma_mul_is_associative, lemma_mul_inequality,
    lemma_mul_strict_inequality, lemma_mul_is_commutative};

verus! {

/// Eight to the power `n`.
pub open spec fn pow8(n: nat) -> nat
    decreases n,
{
    if n == 0 { 1 } else { 8 * pow8((n - 1) as nat) }
}

/// Base-8 value of a sequence of octants, the first element being the most significant digit.
pub open spec fn seq_value(s: Seq<u8>) -> nat
    decreases s.len(),
{
    if s.len() == 0 { 0 } else { seq_value(s.drop_last()) * 8 + s.last() as nat }
}

/// The raw encoding of a path: a marker digit `1` followed by the octants.
pub open spec fn encode(s: Seq<u8>) -> nat {
    pow8(s.len()) + seq_value(s)
}

/// The octants below the leading digit of `x`, read in base 8.
pub open spec fn decode(x: nat) -> Seq<u8>
    decreases x,
{
    if x <= 1 { seq![] } else { decode(x / 8).push((x % 8) as u8) }
}

/// Every element is an octant.
pub open spec fn all_octants(s: Seq<u8>) -> bool {
    forall|i: int| 0 <= i < s.len() ==> #[trigger] s[i] < 8
}

/// The largest number of octants a raw `u128` path can hold.
pub open spec fn max_depth() -> nat {
    42
}

/// `x` is the encoding of a path of at most `max_depth()` octants.
pub open spec fn valid_raw(x: u128) -> bool {
    &&& encode(decode(x as nat)) == x
    &&& decode(x as nat).len() <= max_depth()
}

pub proof fn lemma_pow8_pos(n: nat)
    ensures pow8(n) >= 1,
    decreases n,
{
    if n > 0 { lemma_pow8_pos((n - 1) as nat); }
}

pub proof fn lemma_pow8_adds(a: nat, b: nat)
    ensures pow8(a + b) == pow8(a) * pow8(b),
    decreases a,
{
    if a > 0 {
        let a1 = (a - 1) as nat;
        lemma_pow8_adds(a1, b);
        assert(pow8(a + b) == 8 * pow8(a1 + b));
        assert(8 * (pow8(a1) * pow8(b)) == (8 * pow8(a1)) * pow8(b)) by (nonlinear_arith);
        assert(pow8(a) == 8 * pow8(a1));
        assert(pow8(a + b) == 8 * (pow8(a1) * pow8(b)));
        assert(pow8(a + b) == pow8(a) * pow8(b));
    } else {
        assert(pow8(a) == 1);
        assert(1 * pow8(b) == pow8(b));
    }
}

pub proof fn lemma_pow8_is_pow2(n: nat)
    ensures pow8(n) == pow2(3 * n),
    decreases n,
{
    lemma2_to64();
    if n > 0 {
        lemma_pow8_is_pow2((n - 1) as nat);
        lemma_pow2_adds(3, (3 * (n - 1)) as nat);
        assert(3 * n == 3 + 3 * (n - 1));
    }
}

pub proof fn lemma_pow8_monotonic(a: nat, b: nat)
    requires a <= b,
    ensures pow8(a) <= pow8(b),
    decreases b,
{
    if a < b {
        lemma_pow8_monotonic(a, (b - 1) as nat);
        lemma_pow8_pos((b - 1) as nat);
    }
}

pub proof fn lemma_decode_octants(x: nat)
    ensures all_octants(decode(x)),
    decreases x,
{
    if x > 1 {
        lemma_decode_octants(x / 8);
        let s = decode(x);
        assert forall|i: int| 0 <= i < s.len() implies #[trigger] s[i] < 8 by {
            if i < s.len() - 1 {
                assert(s[i] == decode(x / 8)[i]);
            }
        }
    }
}

pub proof fn lemma_seq_value_bound(s: Seq<u8>)
    requires all_octants(s),
    ensures seq_value(s) < pow8(s.len()),
    decreases s.len(),
{
    if s.len() > 0 {
        let d = s.drop_last();
        assert(all_octants(d)) by {
            assert forall|i: int| 0 <= i < d.len() implies #[trigger] d[i] < 8 by {
                assert(d[i] == s[i]);
            }
        }
        lemma_seq_value_bound(d);
        assert(s.last() < 8) by { assert(s[s.len() - 1] < 8); }
        assert(seq_value(d) * 8 + 8 <= pow8(d.len()) * 8) by (nonlinear_arith)
            requires seq_value(d) < pow8(d.len());
    }
}

pub proof fn lemma_decode_encode(s: Seq<u8>)
    requires all_octants(s),
    ensures decode(encode(s)) == s,
    decreases s.len(),
{
    if s.len() == 0 {
        assert(decode(1) =~= s);
    } else {
        let d = s.drop_last();
        assert(all_octants(d)) by {
            assert forall|i: int| 0 <= i < d.len() implies #[trigger] d[i] < 8 by {
                assert(d[i] == s[i]);
            }
        }
        lemma_decode_encode(d);
        lemma_pow8_pos(d.len());
        assert(s.last() < 8) by { assert(s[s.len() - 1] < 8); }
        let e = encode(d);
        assert(encode(s) == e * 8 + s.last() as nat);
        lemma_fundamental_div_mod_converse(encode(s) as int, 8, e as int, s.last() as int);
        assert(decode(encode(s)) == decode(e).push(s.last()));
        assert(s =~= d.push(s.last()));
    }
}

/// The raw value of a path is the marker followed by its octants.
pub proof fn lemma_valid_layout(x: u128)
    requires valid_raw(x),
    ensures
        all_octants(decode(x as nat)),
        x == pow8(decode(x as nat).len()) + seq_value(decode(x as nat)),
        seq_value(decode(x as nat)) < pow8(decode(x as nat).len()),
        x < 2 * pow8(decode(x as nat).len()),
{
    lemma_decode_octants(x as nat);
    lemma_seq_value_bound(decode(x as nat));
}

pub proof fn lemma_seq_value_concat(a: Seq<u8>, b: Seq<u8>)
    ensures seq_value(a + b) == seq_value(a) * pow8(b.len()) + seq_value(b),
    decreases b.len(),
{
    if b.len() == 0 {
        assert(a + b =~= a);
        assert(pow8(0) == 1);
        assert(seq_value(a) * 1 == seq_value(a));
    } else {
        let bd = b.drop_last();
        lemma_seq_value_concat(a, bd);
        assert((a + b).drop_last() =~= a + bd);
        assert((a + b).last() == b.last());
        let p = pow8(bd.len());
        assert(seq_value(a + b) == (seq_value(a) * p + seq_value(bd)) * 8 + b.last() as nat);
        assert((seq_value(a) * p + seq_value(bd)) * 8 == seq_value(a) * (8 * p) + seq_value(bd) * 8)
            by (nonlinear_arith);
        assert(pow8(b.len()) == 8 * p);
        assert(seq_value(b) == seq_value(bd) * 8 + b.last() as nat);
    }
}

pub proof fn lemma_encode_concat(a: Seq<u8>, b: Seq<u8>)
    ensures encode(a + b) == encode(a) * pow8(b.len()) + seq_value(b),
{
    lemma_seq_value_concat(a, b);
    lemma_pow8_adds(a.len(), b.len());
    assert((pow8(a.len()) + seq_value(a)) * pow8(b.len())
        == pow8(a.len()) * pow8(b.len()) + seq_value(a) * pow8(b.len())) by (nonlinear_arith);
}

pub proof fn lemma_all_octants_concat(a: Seq<u8>, b: Seq<u8>)
    requires all_octants(a), all_octants(b),
    ensures all_octants(a + b),
{
    assert forall|i: int| 0 <= i < (a + b).len() implies #[trigger] (a + b)[i] < 8 by {
        if i < a.len() { assert((a + b)[i] == a[i]); } else { assert((a + b)[i] == b[i - a.len()]); }
    }
}

pub proof fn lemma_all_octants_subrange(s: Seq<u8>, i: int, j: int)
    requires all_octants(s), 0 <= i <= j <= s.len(),
    ensures all_octants(s.subrange(i, j)),
{
    assert forall|k: int| 0 <= k < s.subrange(i, j).len() implies #[trigger] s.subrange(i, j)[k] < 8 by {
        assert(s.subrange(i, j)[k] == s[i + k]);
    }
}

/// Replacing one octant changes the value by the difference times its weight.
pub proof fn lemma_seq_value_update(s: Seq<u8>, j: int, v: u8)
    requires 0 <= j < s.len(),
    ensures
        seq_value(s.update(j, v)) + s[j] * pow8((s.len() - 1 - j) as nat)
            == seq_value(s) + v * pow8((s.len() - 1 - j) as nat),
    decreases s.len(),
{
    let u = s.update(j, v);
    assert(u.last() == if j == s.len() - 1 { v } else { s.last() });
    assert(seq_value(u) == seq_value(u.drop_last()) * 8 + u.last() as nat);
    assert(seq_value(s) == seq_value(s.drop_last()) * 8 + s.last() as nat);
    if j == s.len() - 1 {
        assert(u.drop_last() =~= s.drop_last());
        assert(pow8(0) == 1);
        assert(s[j] * 1 == s[j] && v * 1 == v);
    } else {
        lemma_seq_value_update(s.drop_last(), j, v);
        assert(u.drop_last() =~= s.drop_last().update(j, v));
        let w = pow8((s.len() - 2 - j) as nat);
        assert(pow8((s.len() - 1 - j) as nat) == 8 * w);
        assert(seq_value(u) == seq_value(u.drop_last()) * 8 + s.last() as nat);
        assert((seq_value(u.drop_last()) + s[j] * w) * 8 == (seq_value(s.drop_last()) + v * w) * 8);
        assert(seq_value(u.drop_last()) * 8 + s[j] * (8 * w) == seq_value(s.drop_last()) * 8 + v * (8 * w))
            by (nonlinear_arith)
            requires (seq_value(u.drop_last()) + s[j] * w) * 8 == (seq_value(s.drop_last()) + v * w) * 8;
    }
}

/// The `k`-th octant counted from the deepest one is a base-8 digit of the value.
pub proof fn lemma_digit(s: Seq<u8>, k: nat)
    requires all_octants(s), k < s.len(),
    ensures (seq_value(s) / pow8(k)) % 8 == s[s.len() - 1 - k],
    decreases k,
{
    let d = s.drop_last();
    assert(s.last() < 8) by { assert(s[s.len() - 1] < 8); }
    if k == 0 {
        assert(seq_value(s) == seq_value(d) * 8 + s.last() as nat);
        lemma_fundamental_div_mod_converse(seq_value(s) as int, 8, seq_value(d) as int, s.last() as int);
        assert(pow8(0) == 1);
        assert(seq_value(s) / 1 == seq_value(s));
    } else {
        assert(all_octants(d)) by {
            assert forall|i: int| 0 <= i < d.len() implies #[trigger] d[i] < 8 by { assert(d[i] == s[i]); }
        }
        lemma_digit(d, (k - 1) as nat);
        lemma_pow8_pos((k - 1) as nat);
        // seq_value(s) / 8^k == seq_value(d) / 8^(k-1)
        let p = pow8((k - 1) as nat);
        assert(pow8(k) == 8 * p);
        lemma_fundamental_div_mod_converse(seq_value(s) as int, 8, seq_value(d) as int, s.last() as int);
        vstd::arithmetic::div_mod::lemma_div_denominator(seq_value(s) as int, 8, p as int);
        assert(seq_value(s) / 8 == seq_value(d));
        assert(seq_value(s) / pow8(k) == seq_value(d) / p);
        assert(d[d.len() - 1 - (k - 1)] == s[s.len() - 1 - k]);
    }
}

} // verus!

verus! {

pub proof fn lemma_all_octants_push(s: Seq<u8>, v: u8)
    requires all_octants(s), v < 8,
    ensures all_octants(s.push(v)),
{
    assert forall|i: int| 0 <= i < s.push(v).len() implies #[trigger] s.push(v)[i] < 8 by {
        if i < s.len() { assert(s.push(v)[i] == s[i]); }
    }
}

/// Appending one octant: the encoding is multiplied by eight and the octant added.
pub proof fn lemma_encode_push(s: Seq<u8>, v: u8)
    ensures encode(s.push(v)) == encode(s) * 8 + v,
{
    assert(s.push(v).drop_last() =~= s);
    assert(pow8(s.len() + 1) == 8 * pow8(s.len()));
}

/// Splitting a path after its first `n - m` octants splits its encoding into
/// quotient and remainder by eight to the `m`.
pub proof fn lemma_encode_split(s: Seq<u8>, m: nat)
    requires all_octants(s), m <= s.len(),
    ensures
        encode(s) / pow8(m) == encode(s.take(s.len() - m)),
        encode(s) % pow8(m) == seq_value(s.skip(s.len() - m)),
{
    let i = s.len() - m;
    let a = s.take(i);
    let b = s.skip(i);
    assert(s =~= a + b);
    lemma_encode_concat(a, b);
    lemma_all_octants_subrange(s, i, s.len() as int);
    assert(b =~= s.subrange(i, s.len() as int));
    lemma_seq_value_bound(b);
    lemma_pow8_pos(m);
    lemma_fundamental_div_mod_converse(encode(s) as int, pow8(m) as int, encode(a) as int, seq_value(b) as int);
}

} // verus!

verus! {

pub proof fn lemma_seq_value_single(v: u8)
    ensures seq_value(seq![v]) == v, all_octants(seq![v]) <== v < 8,
{
    assert(seq![v].drop_last() =~= Seq::<u8>::empty());
    assert(seq_value(Seq::<u8>::empty()) == 0);
}

} // verus!

verus! {

/// The `d` base-8 digits of `i`, most significant first.
pub open spec fn digits(i: nat, d: nat) -> Seq<u8>
    decreases d,
{
    if d == 0 { seq![] } else { digits(i / 8, (d - 1) as nat).push((i % 8) as u8) }
}

pub proof fn lemma_digits(i: nat, d: nat)
    requires i < pow8(d),
    ensures
        digits(i, d).len() == d,
        all_octants(digits(i, d)),
        seq_value(digits(i, d)) == i,
        decode(pow8(d) + i) == digits(i, d),
    decreases d,
{
    let s = digits(i, d);
    if d == 0 {
        assert(pow8(0) == 1);
        assert(decode(1) =~= s);
    } else {
        let d1 = (d - 1) as nat;
        assert(pow8(d) == 8 * pow8(d1));
        assert(i / 8 < pow8(d1)) by (nonlinear_arith) requires i < 8 * pow8(d1);
        lemma_digits(i / 8, d1);
        assert(s.drop_last() =~= digits(i / 8, d1));
        lemma_all_octants_push(digits(i / 8, d1), (i % 8) as u8);
        assert(seq_value(s) == (i / 8) * 8 + i % 8);
        lemma_decode_encode(s);
    }
}

/// Two paths of the same length with the same value are equal.
pub proof fn lemma_seq_value_injective(a: Seq<u8>, b: Seq<u8>)
    requires all_octants(a), all_octants(b), a.len() == b.len(), seq_value(a) == seq_value(b),
    ensures a == b,
{
    lemma_decode_encode(a);
    lemma_decode_encode(b);
}

} // verus!

verus! {

pub proof fn lemma_pow8_small()
    ensures pow8(0) == 1, pow8(1) == 8,
{
    assert(pow8(0) == 1);
    assert(pow8(1) == 8 * pow8(0));
}

} // verus!

verus! {

/// Bit `a` (0 for x, 1 for y, 2 for z) of the octant `o`.
pub open spec fn axis_bit(o: u8, a: nat) -> nat {
    if a == 0 {
        (o % 2) as nat
    } else if a == 1 {
        ((o / 2) % 2) as nat
    } else {
        ((o / 4) % 2) as nat
    }
}

/// The weight of axis `a` inside an octant.
pub open spec fn axis_weight(a: nat) -> nat {
    if a == 0 { 1 } else if a == 1 { 2 } else { 4 }
}

/// The integer coordinate along axis `a` of the cell designated by the path `s`,
/// in the grid of `2^s.len()` cells per side.
pub open spec fn coord(s: Seq<u8>, a: nat) -> nat
    decreases s.len(),
{
    if s.len() == 0 { 0 } else { coord(s.drop_last(), a) * 2 + axis_bit(s.last(), a) }
}

pub proof fn lemma_coord_bound(s: Seq<u8>, a: nat)
    ensures coord(s, a) < pow2(s.len()),
    decreases s.len(),
{
    vstd::arithmetic::power2::lemma2_to64();
    if s.len() > 0 {
        lemma_coord_bound(s.drop_last(), a);
        vstd::arithmetic::power2::lemma_pow2_unfold(s.len());
    }
}

/// Replacing one octant changes the coordinate by the change of its bit times its weight.
pub proof fn lemma_coord_update(s: Seq<u8>, j: int, v: u8, a: nat)
    requires 0 <= j < s.len(),
    ensures
        coord(s.update(j, v), a) + axis_bit(s[j], a) * pow2((s.len() - 1 - j) as nat)
            == coord(s, a) + axis_bit(v, a) * pow2((s.len() - 1 - j) as nat),
    decreases s.len(),
{
    vstd::arithmetic::power2::lemma2_to64();
    let u = s.update(j, v);
    assert(u.last() == if j == s.len() - 1 { v } else { s.last() });
    assert(coord(u, a) == coord(u.drop_last(), a) * 2 + axis_bit(u.last(), a));
    assert(coord(s, a) == coord(s.drop_last(), a) * 2 + axis_bit(s.last(), a));
    if j == s.len() - 1 {
        assert(u.drop_last() =~= s.drop_last());
        assert(pow2(0) == 1);
        assert(axis_bit(s[j], a) * 1 == axis_bit(s[j], a) && axis_bit(v, a) * 1 == axis_bit(v, a));
    } else {
        lemma_coord_update(s.drop_last(), j, v, a);
        assert(u.drop_last() =~= s.drop_last().update(j, v));
        let w = pow2((s.len() - 2 - j) as nat);
        vstd::arithmetic::power2::lemma_pow2_unfold((s.len() - 1 - j) as nat);
        assert(pow2((s.len() - 1 - j) as nat) == 2 * w);
        assert(coord(u.drop_last(), a) * 2 + axis_bit(s[j], a) * (2 * w)
            == coord(s.drop_last(), a) * 2 + axis_bit(v, a) * (2 * w)) by (nonlinear_arith)
            requires coord(u.drop_last(), a) + axis_bit(s[j], a) * w == coord(s.drop_last(), a) + axis_bit(v, a) * w;
    }
}

/// Setting a clear axis bit of an octant.
pub proof fn lemma_octant_set(o: u8, i: nat)
    requires o < 8, i < 3, axis_bit(o, i) == 0,
    ensures
        o + axis_weight(i) < 8,
        axis_bit((o + axis_weight(i)) as u8, i) == 1,
        forall|b: nat| b < 3 && b != i ==> axis_bit((o + axis_weight(i)) as u8, b) == #[trigger] axis_bit(o, b),
{
}

/// Clearing a set axis bit of an octant.
pub proof fn lemma_octant_clear(o: u8, i: nat)
    requires o < 8, i < 3, axis_bit(o, i) == 1,
    ensures
        o >= axis_weight(i),
        axis_bit((o - axis_weight(i)) as u8, i) == 0,
        forall|b: nat| b < 3 && b != i ==> axis_bit((o - axis_weight(i)) as u8, b) == #[trigger] axis_bit(o, b),
{
}

/// An octant is determined by its three axis bits.
pub proof fn lemma_octant_bits(o: u8)
    requires o < 8,
    ensures o == axis_bit(o, 0) + 2 * axis_bit(o, 1) + 4 * axis_bit(o, 2),
{
}

/// A path is determined by its length and its three coordinates.
pub proof fn lemma_coords_determine(s: Seq<u8>, t: Seq<u8>)
    requires
        all_octants(s), all_octants(t), s.len() == t.len(),
        coord(s, 0) == coord(t, 0), coord(s, 1) == coord(t, 1), coord(s, 2) == coord(t, 2),
    ensures s == t,
    decreases s.len(),
{
    if s.len() == 0 {
        assert(s =~= t);
    } else {
        let (sd, td) = (s.drop_last(), t.drop_last());
        assert(all_octants(sd)) by {
            assert forall|i: int| 0 <= i < sd.len() implies #[trigger] sd[i] < 8 by { assert(sd[i] == s[i]); }
        }
        assert(all_octants(td)) by {
            assert forall|i: int| 0 <= i < td.len() implies #[trigger] td[i] < 8 by { assert(td[i] == t[i]); }
        }
        assert forall|a: nat| a < 3 implies coord(sd, a) == coord(td, a) && axis_bit(s.last(), a) == axis_bit(t.last(), a) by {
            assert(coord(s, a) == coord(sd, a) * 2 + axis_bit(s.last(), a));
            assert(coord(t, a) == coord(td, a) * 2 + axis_bit(t.last(), a));
            assert(axis_bit(s.last(), a) < 2 && axis_bit(t.last(), a) < 2);
        }
        lemma_coords_determine(sd, td);
        assert(s.last() < 8) by { assert(s[s.len() - 1] < 8); }
        assert(t.last() < 8) by { assert(t[t.len() - 1] < 8); }
        lemma_octant_bits(s.last());
        lemma_octant_bits(t.last());
        assert(s =~= sd.push(s.last()));
        assert(t =~= td.push(t.last()));
    }
}

} // verus!

verus! {

/// The last octant of a path is the lowest base-8 digit of its encoding.
pub proof fn lemma_encode_last(u: Seq<u8>)
    requires u.len() > 0, all_octants(u),
    ensures encode(u) % 8 == u.last(), encode(u) / 8 == encode(u.drop_last()),
{
    assert(u =~= u.drop_last().push(u.last()));
    lemma_encode_push(u.drop_last(), u.last());
    assert(u.last() < 8) by { assert(u[u.len() - 1] < 8); }
    lemma_fundamental_div_mod_converse(encode(u) as int, 8, encode(u.drop_last()) as int, u.last() as int);
}

} // verus!
