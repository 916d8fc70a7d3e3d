//! Paths from the root of an octree down to one of its cells.
use vstd::prelude::*;
use crate::path_model::{
    pow8, seq_value, encode, decode, all_octants, valid_raw, lemma_pow8_pos, lemma_pow8_monotonic,
    lemma_decode_encode, lemma_decode_octants, lemma_valid_layout, lemma_encode_push, lemma_encode_split,
    lemma_encode_concat, lemma_seq_value_concat, lemma_seq_value_bound, lemma_all_octants_push,
    lemma_all_octants_concat, lemma_all_octants_subrange, lemma_seq_value_single, coord, axis_bit,
    axis_weight,
};
use vstd::arithmetic::power2::pow2;
use vstd::string::StringExecFns;
use crate::raw_bits::{
    lemma_shr_octants, lemma_mask_octants, lemma_or_octant, lemma_or_marker, lemma_append_octant,
    lemma_shl_octants, lemma_low_octant, lemma_pow8_41,
};

verus! {

/// A three-bit unsigned integer: the index of one of the eight children of a cell.
/// Bit 0 selects the upper half along x, bit 1 along y and bit 2 along z.
#[derive(Clone, Copy, PartialEq, Eq, Hash, Debug, Structural)]
pub struct U3(u8);

impl View for U3 {
    type V = u8;

    closed spec fn view(&self) -> u8 {
        self.0
    }
}

impl U3 {
    #[verifier::type_invariant]
    closed spec fn inv(self) -> bool {
        self.0 < 8
    }

    /// The largest value, `0b111`.
    pub fn max_value() -> (r: U3)
        ensures r@ == 7,
    {
        U3(7)
    }

    pub fn new(value: u8) -> (r: U3)
        requires value < 8,
        ensures r@ == value,
    {
        U3(value)
    }

    pub fn value(self) -> (r: u8)
        ensures r == self@, r < 8,
    {
        proof { use_type_invariant(&self); }
        self.0
    }
}

/// A path from the root of an octree: a sequence of at most 42 octants, root first.
///
/// It is stored in a `u128` as a marker bit followed by three bits per octant,
/// the deepest octant in the lowest bits.
#[derive(Clone, Copy, PartialEq, Eq, Hash, Debug, Structural)]
pub struct CellPath(u128);

impl View for CellPath {
    type V = Seq<u8>;

    closed spec fn view(&self) -> Seq<u8> {
        decode(self.0 as nat)
    }
}

/// The largest number of octants a path can hold.
pub const MAX_CAPACITY: u32 = 42;

impl CellPath {
    #[verifier::type_invariant]
    closed spec fn inv(self) -> bool {
        valid_raw(self.0)
    }

    /// Every element of a path is an octant.
    pub proof fn lemma_octants(self)
        ensures all_octants(self@),
    {
        lemma_decode_octants(self.0 as nat);
    }

    /// The empty path, designating the root.
    pub fn new() -> (r: CellPath)
        ensures r@ == Seq::<u8>::empty(),
    {
        proof { assert(decode(1) =~= Seq::<u8>::empty()); }
        CellPath(1)
    }

    /// The path whose raw encoding is `raw`, if `raw` encodes one.
    pub fn from_raw(raw: u128) -> (r: Option<CellPath>)
        ensures
            r is Some <==> valid_raw(raw),
            r matches Some(p) ==> p@ == decode(raw as nat),
    {
        let mut v = raw;
        let mut n: u32 = 0;
        let ghost mut tail = Seq::<u8>::empty();
        proof {
            assert(decode(raw as nat) =~= decode(raw as nat) + tail);
            assert(pow8(0) == 1);
            assert(raw * 1 == raw);
        }
        // peel off the octants below the leading digit
        while v > 1
            invariant
                decode(raw as nat) == decode(v as nat) + tail,
                tail.len() == n,
                all_octants(tail),
                raw == v * pow8(n as nat) + seq_value(tail),
                n <= 42,
            decreases v,
        {
            proof { lemma_low_octant(v); }
            if n == 42 {
                return None;
            }
            let ghost d = (v % 8) as u8;
            proof {
                let v1 = v / 8;
                assert(decode(v as nat) == decode(v1 as nat).push(d));
                assert(decode(raw as nat) =~= decode(v1 as nat) + (seq![d] + tail));
                lemma_seq_value_concat(seq![d], tail);
                lemma_seq_value_single(d);
                assert(v == v1 * 8 + d);
                assert(raw == v1 * pow8((n + 1) as nat) + seq_value(seq![d] + tail)) by (nonlinear_arith)
                    requires raw == v * pow8(n as nat) + seq_value(tail), v == v1 * 8 + d,
                        pow8((n + 1) as nat) == 8 * pow8(n as nat),
                        seq_value(seq![d] + tail) == d * pow8(n as nat) + seq_value(tail);
                assert(all_octants(seq![d]));
                lemma_all_octants_concat(seq![d], tail);
                tail = seq![d] + tail;
            }
            v = v >> 3;
            n = n + 1;
        }
        proof {
            assert(decode(v as nat) =~= Seq::<u8>::empty());
            assert(decode(raw as nat) =~= tail);
            lemma_pow8_pos(n as nat);
            assert(v * pow8(n as nat) == if v == 0 { 0 } else { pow8(n as nat) }) by (nonlinear_arith)
                requires v <= 1;
        }
        if v != 1 {
            return None;
        }
        Some(CellPath(raw))
    }

    /// The raw encoding of this path.
    pub fn raw(&self) -> (r: u128)
        ensures r == encode(self@),
    {
        proof { use_type_invariant(self); }
        self.0
    }

    /// The capacity of every path, `MAX_CAPACITY`.
    pub fn capacity(&self) -> (r: u32)
        ensures r == 42,
    {
        MAX_CAPACITY
    }

    /// The number of octants in the path.
    pub fn len(&self) -> (r: u32)
        ensures r == self@.len(), r <= 42,
    {
        proof { use_type_invariant(self); }
        let mut v = self.0;
        let mut n: u32 = 0;
        while v > 1
            invariant
                decode(self.0 as nat).len() == n + decode(v as nat).len(),
                decode(self.0 as nat).len() <= 42,
            decreases v,
        {
            proof { lemma_low_octant(v); }
            v = v >> 3;
            n = n + 1;
        }
        n
    }

    /// Same as [len](Self::len).
    pub fn depth(&self) -> (r: u32)
        ensures r == self@.len(), r <= 42,
    {
        self.len()
    }

    /// Appends the octant `v` at the deep end of the path.
    pub fn push(&mut self, v: U3)
        requires old(self)@.len() < 42,
        ensures final(self)@ == old(self)@.push(v@),
    {
        proof { use_type_invariant(&*self); }
        let val = v.value();
        let x = self.0;
        proof {
            let s = decode(x as nat);
            lemma_valid_layout(x);
            lemma_pow8_monotonic(s.len(), 41);
            lemma_append_octant(x, val as u128);
            lemma_encode_push(s, val);
            lemma_all_octants_push(s, val);
            lemma_decode_encode(s.push(val));
        }
        self.0 = (x << 3) | (val as u128);
    }

    /// [push](Self::push) on a copy.
    pub fn with_push(self, v: U3) -> (r: CellPath)
        requires self@.len() < 42,
        ensures r@ == self@.push(v@),
    {
        let mut p = self;
        p.push(v);
        p
    }

    /// Inserts the octant `v` at the root end of the path.
    pub fn push_back(&mut self, v: U3)
        requires old(self)@.len() < 42,
        ensures final(self)@ == seq![v@] + old(self)@,
    {
        proof { use_type_invariant(&*self); }
        let val = v.value();
        let n = self.len();
        let x = self.0;
        let marker_bit = 3 * n;
        let cleared = x & !(u128::MAX << marker_bit);
        let ghost s = decode(x as nat);
        proof {
            lemma_valid_layout(x);
            lemma_mask_octants(x, n as nat);
            lemma_pow8_pos(n as nat);
            assert(pow8(n as nat) * 1 == pow8(n as nat));
            vstd::arithmetic::div_mod::lemma_mod_multiples_vanish(1, seq_value(s) as int, pow8(n as nat) as int);
            vstd::arithmetic::div_mod::lemma_small_mod(seq_value(s), pow8(n as nat));
            assert(cleared == seq_value(s));
            lemma_or_octant(cleared, val as u128, n as nat);
        }
        let with_val = cleared | ((val as u128) << marker_bit);
        proof {
            assert(with_val == seq_value(s) + val * pow8(n as nat));
            assert(with_val < pow8((n + 1) as nat)) by (nonlinear_arith)
                requires with_val == seq_value(s) + val * pow8(n as nat), seq_value(s) < pow8(n as nat),
                    val < 8, pow8((n + 1) as nat) == 8 * pow8(n as nat);
            lemma_or_marker(with_val, (n + 1) as nat);
            let t = seq![val] + s;
            lemma_seq_value_concat(seq![val], s);
            lemma_seq_value_single(val);
            assert(with_val + pow8((n + 1) as nat) == encode(t));
            assert(all_octants(seq![val]));
            lemma_all_octants_concat(seq![val], s);
            lemma_decode_encode(t);
        }
        self.0 = with_val | (1u128 << (marker_bit + 3));
    }

    /// [push_back](Self::push_back) on a copy.
    pub fn with_push_back(self, v: U3) -> (r: CellPath)
        requires self@.len() < 42,
        ensures r@ == seq![v@] + self@,
    {
        let mut p = self;
        p.push_back(v);
        p
    }
}

impl CellPath {
    /// The octant at the root end of the path, if any.
    pub fn peek(&self) -> (r: Option<U3>)
        ensures
            r is None <==> self@.len() == 0,
            r matches Some(v) ==> v@ == self@[0],
    {
        proof { use_type_invariant(self); }
        let n = self.len();
        if n == 0 {
            return None;
        }
        let k = n - 1;
        let x = self.0;
        proof { self.lemma_front(k as nat); self.lemma_octants(); }
        Some(U3::new(((x >> (3 * k)) & 7) as u8))
    }

    /// The root-most octant is the lowest digit of the encoding shifted right past the others.
    proof fn lemma_front(self, k: nat)
        requires valid_raw(self.0), self@.len() == k + 1,
        ensures
            ((self.0 >> ((3 * k) as u128)) & 7) == self@[0],
            (self.0 >> ((3 * k) as u128)) == 8 + self@[0],
    {
        let s = self@;
        lemma_valid_layout(self.0);
        lemma_shr_octants(self.0, k);
        lemma_encode_split(s, k);
        assert(s.take(1) =~= seq![s[0]]);
        lemma_seq_value_single(s[0]);
        crate::path_model::lemma_pow8_small();
        lemma_decode_octants(self.0 as nat);
        assert(s[0] < 8);
        lemma_low_octant(self.0 >> ((3 * k) as u128));
    }

    /// Removes and returns the octant at the root end of the path.
    pub fn pop(&mut self) -> (r: Option<U3>)
        ensures
            r is None <==> old(self)@.len() == 0,
            r is None ==> final(self)@ == old(self)@,
            r matches Some(v) ==> v@ == old(self)@[0] && final(self)@ == old(self)@.drop_first(),
    {
        proof { use_type_invariant(&*self); }
        let n = self.len();
        if n == 0 {
            return None;
        }
        let k = n - 1;
        let x = self.0;
        let ghost s = self@;
        proof { self.lemma_front(k as nat); }
        let val = ((x >> (3 * k)) & 7) as u8;
        let rest = x & !(u128::MAX << (3 * k));
        proof {
            lemma_mask_octants(x, k as nat);
            lemma_valid_layout(x);
            lemma_encode_split(s, k as nat);
            assert(s.skip(1) =~= s.drop_first());
            lemma_all_octants_subrange(s, 1, s.len() as int);
            assert(s.drop_first() =~= s.subrange(1, s.len() as int));
            lemma_seq_value_bound(s.drop_first());
            lemma_or_marker(rest, k as nat);
            lemma_decode_encode(s.drop_first());
        }
        self.0 = rest | (1u128 << (3 * k));
        Some(U3::new(val))
    }

    /// Same as [pop](Self::pop): the octants of a path are yielded root first.
    pub fn next(&mut self) -> (r: Option<U3>)
        ensures
            r is None <==> old(self)@.len() == 0,
            r is None ==> final(self)@ == old(self)@,
            r matches Some(v) ==> v@ == old(self)@[0] && final(self)@ == old(self)@.drop_first(),
    {
        self.pop()
    }

    /// The path without its deepest octant, if it has one.
    pub fn parent(self) -> (r: Option<CellPath>)
        ensures
            r is None <==> self@.len() == 0,
            r matches Some(p) ==> p@ == self@.drop_last(),
    {
        proof { use_type_invariant(&self); }
        let n = self.len();
        if n == 0 {
            return None;
        }
        let ghost s = self@;
        proof {
            lemma_valid_layout(self.0);
            lemma_low_octant(self.0);
            crate::path_model::lemma_pow8_small();
            lemma_encode_split(s, 1);
            assert(s.take(s.len() - 1) =~= s.drop_last());
            lemma_all_octants_subrange(s, 0, s.len() - 1);
            assert(s.drop_last() =~= s.subrange(0, s.len() - 1));
            lemma_decode_encode(s.drop_last());
        }
        Some(CellPath(self.0 >> 3))
    }

    /// All the ancestors of this path, from the deepest to the root.
    pub fn parents(self) -> (r: Vec<CellPath>)
        ensures
            r.len() == self@.len(),
            forall|i: int| 0 <= i < r.len() ==> #[trigger] r[i]@ == self@.take(self@.len() - 1 - i),
    {
        let ghost s = self@;
        let mut out: Vec<CellPath> = Vec::new();
        let mut cur = self;
        proof { assert(s.take(s.len() as int) =~= s); }
        loop
            invariant
                out.len() <= s.len(),
                cur@ == s.take(s.len() - out.len()),
                forall|i: int| 0 <= i < out.len() ==> #[trigger] out[i]@ == s.take(s.len() - 1 - i),
            ensures
                out.len() == s.len(),
                forall|i: int| 0 <= i < out.len() ==> #[trigger] out[i]@ == s.take(s.len() - 1 - i),
            decreases cur@.len(),
        {
            match cur.parent() {
                Some(p) => {
                    proof { assert(p@ =~= s.take(s.len() - 1 - out.len())); }
                    out.push(p);
                    cur = p;
                },
                None => break,
            }
        }
        out
    }

    /// The eight children of this path, in octant order.
    pub fn children(self) -> (r: [CellPath; 8])
        requires self@.len() < 42,
        ensures forall|i: int| 0 <= i < 8 ==> #[trigger] r@[i]@ == self@.push(i as u8),
    {
        let r = [
            self.with_push(U3::new(0b000)),
            self.with_push(U3::new(0b001)),
            self.with_push(U3::new(0b010)),
            self.with_push(U3::new(0b011)),
            self.with_push(U3::new(0b100)),
            self.with_push(U3::new(0b101)),
            self.with_push(U3::new(0b110)),
            self.with_push(U3::new(0b111)),
        ];
        r
    }

    /// The path of exactly `depth` octants whose [index](Self::index) is `index`, if there
    /// is one: the `index`-th path that [all_iter](Self::all_iter) yields, for any depth.
    pub fn of_index(depth: u32, index: u128) -> (r: Option<CellPath>)
        ensures
            r is Some <==> depth <= 42 && index < pow8(depth as nat),
            r matches Some(p) ==> p@.len() == depth && seq_value(p@) == index,
    {
        if depth > 42 {
            return None;
        }
        let sections = depth * 3;
        proof { crate::raw_bits::lemma_unit(depth as nat); }
        let count: u128 = 1u128 << sections;
        if index >= count {
            return None;
        }
        proof {
            crate::path_model::lemma_digits(index as nat, depth as nat);
            lemma_or_marker(index, depth as nat);
            lemma_pow8_pos(depth as nat);
            lemma_seq_value_bound(crate::path_model::digits(index as nat, depth as nat));
        }
        Some(CellPath(index | count))
    }

    /// Every path of exactly `depth` octants, in increasing [index](Self::index) order.
    pub fn all_iter(depth: usize) -> (r: Vec<CellPath>)
        requires depth <= 42, pow8(depth as nat) <= usize::MAX,
        ensures
            r.len() == pow8(depth as nat),
            forall|i: int| 0 <= i < r.len() ==> (#[trigger] r[i]@).len() == depth && seq_value(r[i]@) == i,
    {
        let sections = (depth * 3) as u32;
        proof { crate::raw_bits::lemma_unit(depth as nat); }
        let count: u128 = 1u128 << sections;
        let mut out: Vec<CellPath> = Vec::new();
        let mut i: u128 = 0;
        while i < count
            invariant
                count == pow8(depth as nat),
                count <= usize::MAX,
                depth <= 42,
                sections == 3 * depth,
                i <= count,
                out.len() == i,
                forall|j: int| 0 <= j < out.len() ==> (#[trigger] out[j]@).len() == depth && seq_value(out[j]@) == j,
            decreases count - i,
        {
            proof {
                crate::path_model::lemma_digits(i as nat, depth as nat);
                lemma_or_marker(i, depth as nat);
                lemma_pow8_pos(depth as nat);
                lemma_seq_value_bound(crate::path_model::digits(i as nat, depth as nat));
            }
            let p = CellPath(i | (1u128 << sections));
            out.push(p);
            i = i + 1;
        }
        out
    }

    /// The octants read as a base-8 number. It is unique among the paths of one depth and
    /// covers `0..8^depth`; paths of different depths can share it.
    pub fn index(&self) -> (r: u128)
        ensures r == seq_value(self@), r < pow8(self@.len()),
    {
        proof { use_type_invariant(self); }
        let n = self.len();
        proof {
            let s = self@;
            lemma_valid_layout(self.0);
            lemma_mask_octants(self.0, n as nat);
            lemma_encode_split(s, n as nat);
            assert(s.skip(0) =~= s);
        }
        self.0 & !(u128::MAX << (3 * n))
    }

    /// The path made of the first `depth` octants of this one.
    pub fn take_depth(&self, depth: u32) -> (r: CellPath)
        requires depth <= self@.len(),
        ensures r@ == self@.take(depth as int),
    {
        proof { use_type_invariant(self); }
        let n = self.len();
        let to_remove = n - depth;
        let ghost s = self@;
        proof {
            lemma_valid_layout(self.0);
            lemma_shr_octants(self.0, to_remove as nat);
            lemma_encode_split(s, to_remove as nat);
            lemma_all_octants_subrange(s, 0, depth as int);
            assert(s.take(depth as int) =~= s.subrange(0, depth as int));
            lemma_decode_encode(s.take(depth as int));
        }
        CellPath(self.0 >> (3 * to_remove))
    }

    /// The path made of the octants of this one after its first `depth_to_remove`:
    /// the inverse of [take_depth](Self::take_depth).
    pub fn reparent(self, depth_to_remove: u32) -> (r: CellPath)
        requires depth_to_remove <= self@.len(),
        ensures r@ == self@.skip(depth_to_remove as int),
    {
        proof { use_type_invariant(&self); }
        let n = self.len();
        let new_depth = n - depth_to_remove;
        let ghost s = self@;
        let kept = self.0 & !(u128::MAX << (3 * new_depth));
        proof {
            lemma_valid_layout(self.0);
            lemma_mask_octants(self.0, new_depth as nat);
            lemma_encode_split(s, new_depth as nat);
            let t = s.skip(depth_to_remove as int);
            lemma_all_octants_subrange(s, depth_to_remove as int, s.len() as int);
            assert(t =~= s.subrange(depth_to_remove as int, s.len() as int));
            lemma_seq_value_bound(t);
            lemma_or_marker(kept, new_depth as nat);
            lemma_decode_encode(t);
        }
        CellPath(kept | (1u128 << (3 * new_depth)))
    }

    /// This path followed by the octants of `other`.
    pub fn extended(self, other: CellPath) -> (r: CellPath)
        requires self@.len() + other@.len() < 42,
        ensures r@ == self@ + other@,
    {
        proof { use_type_invariant(&self); use_type_invariant(&other); }
        let m = other.len();
        let idx = other.index();
        let ghost s = self@;
        let ghost o = other@;
        proof {
            lemma_valid_layout(self.0);
            lemma_valid_layout(other.0);
            crate::path_model::lemma_pow8_adds(s.len(), m as nat);
            lemma_pow8_monotonic(s.len() + m as nat, 41);
            assert(self.0 * pow8(m as nat) < 2 * pow8(41)) by (nonlinear_arith)
                requires self.0 < 2 * pow8(s.len()), pow8(s.len() + m as nat) == pow8(s.len()) * pow8(m as nat),
                    pow8(s.len() + m as nat) <= pow8(41), pow8(m as nat) >= 1;
            lemma_pow8_pos(m as nat);
            lemma_shl_octants(self.0, m as nat);
            crate::raw_bits::lemma_or_low(self.0, idx, m as nat);
            lemma_encode_concat(s, o);
            lemma_all_octants_concat(s, o);
            lemma_decode_encode(s + o);
        }
        CellPath((self.0 << (m * 3)) | idx)
    }
}

/// The `k`-th octant from the deep end of a raw path is the lowest digit of the raw value
/// shifted right by `3k`.
proof fn lemma_digit_at(raw: u128, k: nat)
    requires valid_raw(raw), k < decode(raw as nat).len(),
    ensures
        ((raw >> ((3 * k) as u128)) % 8) as u8
            == decode(raw as nat)[decode(raw as nat).len() - 1 - k],
{
    let t = decode(raw as nat);
    let n = t.len();
    lemma_valid_layout(raw);
    lemma_shr_octants(raw, k);
    lemma_encode_split(t, k);
    let u = t.take(n - k);
    lemma_all_octants_subrange(t, 0, n - k);
    assert(u =~= t.subrange(0, n - k));
    crate::path_model::lemma_encode_last(u);
    assert(u.last() == t[n - 1 - k]);
}

/// Setting the clear bit of axis `i` in the `k`-th octant from the deep end.
proof fn lemma_step_set(raw: u128, k: nat, i: nat) -> (new: u128)
    requires
        valid_raw(raw), k < decode(raw as nat).len(), i < 3,
        axis_bit(decode(raw as nat)[decode(raw as nat).len() - 1 - k], i) == 0,
    ensures
        new == raw + axis_weight(i) * pow8(k),
        valid_raw(new),
        decode(new as nat).len() == decode(raw as nat).len(),
        coord(decode(new as nat), i) == coord(decode(raw as nat), i) + pow2(k),
        forall|b: nat| b < 3 && b != i ==> #[trigger] coord(decode(new as nat), b) == coord(decode(raw as nat), b),
{
    let t = decode(raw as nat);
    let n = t.len();
    let j = n - 1 - k;
    let o = t[j];
    let w = axis_weight(i);
    lemma_valid_layout(raw);
    assert(o < 8);
    crate::path_model::lemma_octant_set(o, i);
    let o2 = (o + w) as u8;
    let t2 = t.update(j, o2);
    crate::path_model::lemma_seq_value_update(t, j, o2);
    assert(pow8((n - 1 - j) as nat) == pow8(k));
    assert(seq_value(t2) == seq_value(t) + w * pow8(k)) by (nonlinear_arith)
        requires seq_value(t2) + o * pow8(k) == seq_value(t) + o2 * pow8(k), o2 == o + w;
    assert(all_octants(t2)) by {
        assert forall|q: int| 0 <= q < t2.len() implies #[trigger] t2[q] < 8 by {
            if q != j { assert(t2[q] == t[q]); }
        }
    }
    lemma_decode_encode(t2);
    lemma_seq_value_bound(t2);
    assert forall|b: nat| b < 3 implies
        #[trigger] coord(t2, b) + axis_bit(o, b) * pow2(k) == coord(t, b) + axis_bit(o2, b) * pow2(k) by {
        crate::path_model::lemma_coord_update(t, j, o2, b);
    }
    assert forall|b: nat| b < 3 && b != i implies #[trigger] coord(t2, b) == coord(t, b) by {
        assert(axis_bit(o2, b) == axis_bit(o, b));
        assert(coord(t2, b) + axis_bit(o, b) * pow2(k) == coord(t, b) + axis_bit(o2, b) * pow2(k));
    }
    assert(coord(t2, i) + 0 * pow2(k) == coord(t, i) + 1 * pow2(k));
    lemma_pow8_41();
    lemma_pow8_monotonic(n, 42);
    assert(pow8(42) == 8 * pow8(41));
    assert(encode(t2) == raw + w * pow8(k));
    assert(encode(t2) < 0x8000_0000_0000_0000_0000_0000_0000_0000);
    let new = (raw + w * pow8(k)) as u128;
    assert(new == encode(t2));
    new
}

/// Clearing the set bit of axis `i` in the `k`-th octant from the deep end.
proof fn lemma_step_clear(raw: u128, k: nat, i: nat) -> (new: u128)
    requires
        valid_raw(raw), k < decode(raw as nat).len(), i < 3,
        axis_bit(decode(raw as nat)[decode(raw as nat).len() - 1 - k], i) == 1,
    ensures
        axis_weight(i) * pow8(k) <= raw,
        new == raw - axis_weight(i) * pow8(k),
        valid_raw(new),
        decode(new as nat).len() == decode(raw as nat).len(),
        coord(decode(new as nat), i) + pow2(k) == coord(decode(raw as nat), i),
        forall|b: nat| b < 3 && b != i ==> #[trigger] coord(decode(new as nat), b) == coord(decode(raw as nat), b),
{
    let t = decode(raw as nat);
    let n = t.len();
    let j = n - 1 - k;
    let o = t[j];
    let w = axis_weight(i);
    lemma_valid_layout(raw);
    assert(o < 8);
    crate::path_model::lemma_octant_clear(o, i);
    let o2 = (o - w) as u8;
    let t2 = t.update(j, o2);
    crate::path_model::lemma_seq_value_update(t, j, o2);
    assert(pow8((n - 1 - j) as nat) == pow8(k));
    assert(seq_value(t2) + w * pow8(k) == seq_value(t)) by (nonlinear_arith)
        requires seq_value(t2) + o * pow8(k) == seq_value(t) + o2 * pow8(k), o2 + w == o;
    assert(all_octants(t2)) by {
        assert forall|q: int| 0 <= q < t2.len() implies #[trigger] t2[q] < 8 by {
            if q != j { assert(t2[q] == t[q]); }
        }
    }
    lemma_decode_encode(t2);
    lemma_seq_value_bound(t2);
    assert forall|b: nat| b < 3 implies
        #[trigger] coord(t2, b) + axis_bit(o, b) * pow2(k) == coord(t, b) + axis_bit(o2, b) * pow2(k) by {
        crate::path_model::lemma_coord_update(t, j, o2, b);
    }
    assert forall|b: nat| b < 3 && b != i implies #[trigger] coord(t2, b) == coord(t, b) by {
        assert(axis_bit(o2, b) == axis_bit(o, b));
        assert(coord(t2, b) + axis_bit(o, b) * pow2(k) == coord(t, b) + axis_bit(o2, b) * pow2(k));
    }
    assert(coord(t2, i) + 1 * pow2(k) == coord(t, i) + 0 * pow2(k));
    let new = (raw - w * pow8(k)) as u128;
    assert(new == encode(t2));
    new
}

/// Moves the cell of the raw path `raw` (of `len` octants) by `d` cells along axis `i`,
/// carrying through the octants from the deepest one up.
fn shift_axis(raw: u128, len: u32, d: i8, i: u32) -> (r: Option<u128>)
    requires valid_raw(raw), decode(raw as nat).len() == len, -1 <= d <= 1, i < 3,
    ensures
        r is Some <==> 0 <= coord(decode(raw as nat), i as nat) + d < pow2(len as nat),
        r matches Some(x) ==> {
            &&& valid_raw(x)
            &&& decode(x as nat).len() == len
            &&& coord(decode(x as nat), i as nat) == coord(decode(raw as nat), i as nat) + d
            &&& forall|b: nat| b < 3 && b != i ==> #[trigger] coord(decode(x as nat), b) == coord(decode(raw as nat), b)
        },
{
    let ghost s = decode(raw as nat);
    proof { crate::path_model::lemma_coord_bound(s, i as nat); }
    if d == 0 {
        return Some(raw);
    }
    let bit: u128 = 1 << i;
    proof { crate::raw_bits::lemma_axis_unit(i); }
    let mut new = raw;
    let mut diff: u128 = 0;
    let ghost mut k: nat = 0;
    proof { vstd::arithmetic::power2::lemma2_to64(); }
    loop
        invariant
            valid_raw(new),
            decode(new as nat).len() == len,
            len <= 42,
            diff == 3 * k,
            k <= len,
            d == 1 || d == -1,
            i < 3,
            bit == axis_weight(i as nat),
            s == decode(raw as nat),
            d == 1 ==> coord(decode(new as nat), i as nat) + (pow2(k) - 1) == coord(s, i as nat),
            d == -1 ==> coord(decode(new as nat), i as nat) == coord(s, i as nat) + (pow2(k) - 1),
            forall|b: nat| b < 3 && b != i ==> #[trigger] coord(decode(new as nat), b) == coord(s, b),
        decreases len - k,
    {
        let ghost t = decode(new as nat);
        proof {
            vstd::arithmetic::power2::lemma_pow2_pos(k);
            crate::path_model::lemma_coord_bound(t, i as nat);
        }
        if diff / 3 >= len as u128 {
            proof {
                assert(k == len);
            }
            return None;
        }
        proof {
            lemma_digit_at(new, k);
            crate::raw_bits::lemma_test_axis(new >> ((3 * k) as u128), i as nat);
            vstd::arithmetic::power2::lemma_pow2_unfold(k + 1);
            lemma_decode_octants(new as nat);
            let o = t[len - 1 - k];
            assert(o < 8);
            assert(axis_bit(o, i as nat) < 2);
        }
        if (d == 1 && (new >> diff) & bit == 0) || (d == -1 && (new >> diff) & bit != 0) {
            if d == 1 {
                proof {
                    crate::raw_bits::lemma_set_axis(new, bit, k);
                    let x = lemma_step_set(new, k, i as nat);
                    crate::path_model::lemma_coord_bound(decode(x as nat), i as nat);
                }
                new = new | (bit << diff);
            } else {
                proof {
                    crate::raw_bits::lemma_clear_axis(new, bit, k);
                    let x = lemma_step_clear(new, k, i as nat);
                }
                new = new & !(bit << diff);
            }
            return Some(new);
        } else {
            if d == 1 {
                proof {
                    crate::raw_bits::lemma_clear_axis(new, bit, k);
                    let x = lemma_step_clear(new, k, i as nat);
                }
                new = new & !(bit << diff);
            } else {
                proof {
                    crate::raw_bits::lemma_set_axis(new, bit, k);
                    let x = lemma_step_set(new, k, i as nat);
                }
                new = new | (bit << diff);
            }
            diff = diff + 3;
            proof { k = k + 1; }
        }
    }
}

impl CellPath {
    /// The path of the same depth that designates the cell `(dx, dy, dz)` away from this
    /// one in the grid of cells of that depth, or `None` when it falls outside the root cell.
    pub fn neighbor(self, dx: i8, dy: i8, dz: i8) -> (r: Option<CellPath>)
        requires -1 <= dx <= 1, -1 <= dy <= 1, -1 <= dz <= 1,
        ensures
            r is Some <==> in_grid(self@, dx as int, dy as int, dz as int),
            r matches Some(p) ==> is_shifted(self@, p@, dx as int, dy as int, dz as int),
    {
        proof { use_type_invariant(&self); }
        let n = self.len();
        let ghost s = self@;
        let x = match shift_axis(self.0, n, dx, 0) {
            Some(x) => x,
            None => return None,
        };
        let y = match shift_axis(x, n, dy, 1) {
            Some(y) => y,
            None => return None,
        };
        let z = match shift_axis(y, n, dz, 2) {
            Some(z) => z,
            None => return None,
        };
        proof { lemma_decode_octants(z as nat); }
        Some(CellPath(z))
    }
}

/// The cell of `s` moved by `(dx, dy, dz)` stays inside the root cell.
pub open spec fn in_grid(s: Seq<u8>, dx: int, dy: int, dz: int) -> bool {
    &&& 0 <= coord(s, 0) + dx < pow2(s.len())
    &&& 0 <= coord(s, 1) + dy < pow2(s.len())
    &&& 0 <= coord(s, 2) + dz < pow2(s.len())
}

/// `t` is the path of the cell of `s` moved by `(dx, dy, dz)`.
pub open spec fn is_shifted(s: Seq<u8>, t: Seq<u8>, dx: int, dy: int, dz: int) -> bool {
    &&& all_octants(t)
    &&& t.len() == s.len()
    &&& coord(t, 0) == coord(s, 0) + dx
    &&& coord(t, 1) == coord(s, 1) + dy
    &&& coord(t, 2) == coord(s, 2) + dz
}

/// The `k`-th of the 27 offsets in `{-1, 0, 1}^3`, x varying slowest and z fastest.
pub open spec fn offset(k: int) -> (int, int, int) {
    (k / 9 - 1, (k / 3) % 3 - 1, k % 3 - 1)
}

/// The offsets among the first `k` whose neighbor of `s` exists, excluding `(0, 0, 0)`.
pub open spec fn neighbor_offsets(s: Seq<u8>, k: nat) -> Seq<(int, int, int)>
    decreases k,
{
    if k == 0 {
        seq![]
    } else {
        let prev = neighbor_offsets(s, (k - 1) as nat);
        let o = offset(k - 1);
        if o != (0int, 0int, 0int) && in_grid(s, o.0, o.1, o.2) { prev.push(o) } else { prev }
    }
}

impl CellPath {
    /// All the neighbors of this path (see [neighbor](Self::neighbor)) with their offsets,
    /// excluding the path itself, x offset varying slowest and z fastest.
    #[verifier::rlimit(40)]
    #[verifier::spinoff_prover]
    pub fn neighbors(self) -> (r: Vec<((i8, i8, i8), CellPath)>)
        ensures
            r.len() == neighbor_offsets(self@, 27).len(),
            forall|m: int| 0 <= m < r.len() ==> {
                let (o, p) = #[trigger] r[m];
                &&& (o.0 as int, o.1 as int, o.2 as int) == neighbor_offsets(self@, 27)[m]
                &&& is_shifted(self@, p@, o.0 as int, o.1 as int, o.2 as int)
            },
    {
        let ghost s = self@;
        let mut out: Vec<((i8, i8, i8), CellPath)> = Vec::new();
        let mut x: i8 = -1;
        while x <= 1
            invariant
                -1 <= x <= 2,
                s == self@,
                out.len() == neighbor_offsets(s, (3 * (3 * (x + 1))) as nat).len(),
                forall|m: int| 0 <= m < out.len() ==> {
                    let (o, p) = #[trigger] out[m];
                    &&& (o.0 as int, o.1 as int, o.2 as int) == neighbor_offsets(s, (3 * (3 * (x + 1))) as nat)[m]
                    &&& is_shifted(s, p@, o.0 as int, o.1 as int, o.2 as int)
                },
            decreases 2 - x,
        {
            let mut y: i8 = -1;
            while y <= 1
                invariant
                    -1 <= x <= 1,
                    -1 <= y <= 2,
                    s == self@,
                    out.len() == neighbor_offsets(s, (3 * (3 * (x + 1) + y + 1)) as nat).len(),
                    forall|m: int| 0 <= m < out.len() ==> {
                        let (o, p) = #[trigger] out[m];
                        &&& (o.0 as int, o.1 as int, o.2 as int) == neighbor_offsets(s, (3 * (3 * (x + 1) + y + 1)) as nat)[m]
                        &&& is_shifted(s, p@, o.0 as int, o.1 as int, o.2 as int)
                    },
                decreases 2 - y,
            {
                let mut z: i8 = -1;
                while z <= 1
                    invariant
                        -1 <= x <= 1,
                        -1 <= y <= 1,
                        -1 <= z <= 2,
                        s == self@,
                        out.len() == neighbor_offsets(s, (3 * (3 * (x + 1) + y + 1) + z + 1) as nat).len(),
                        forall|m: int| 0 <= m < out.len() ==> {
                            let (o, p) = #[trigger] out[m];
                            &&& (o.0 as int, o.1 as int, o.2 as int)
                                == neighbor_offsets(s, (3 * (3 * (x + 1) + y + 1) + z + 1) as nat)[m]
                            &&& is_shifted(s, p@, o.0 as int, o.1 as int, o.2 as int)
                        },
                    decreases 2 - z,
                {
                    let ghost k: int = 3 * (3 * (x + 1) + y + 1) + z + 1;
                    let ghost prev = neighbor_offsets(s, k as nat);
                    proof {
                        assert(offset(k) == (x as int, y as int, z as int));
                    }
                    if x != 0 || y != 0 || z != 0 {
                        match self.neighbor(x, y, z) {
                            Some(p) => {
                                out.push(((x, y, z), p));
                                proof {
                                    assert(neighbor_offsets(s, (k + 1) as nat) == prev.push((x as int, y as int, z as int)));
                                }
                            },
                            None => {},
                        }
                    }
                    z = z + 1;
                }
                y = y + 1;
            }
            x = x + 1;
        }
        out
    }
}

/// Moving a cell back by the opposite offset gives back the cell it started from.
pub proof fn law_neighbor_back(p: CellPath, q: Seq<u8>, dx: int, dy: int, dz: int)
    requires is_shifted(p@, q, dx, dy, dz),
    ensures
        in_grid(q, -dx, -dy, -dz),
        is_shifted(q, p@, -dx, -dy, -dz),
{
    p.lemma_octants();
    crate::path_model::lemma_coord_bound(p@, 0);
    crate::path_model::lemma_coord_bound(p@, 1);
    crate::path_model::lemma_coord_bound(p@, 2);
}

/// The path moved by an offset is unique: the contract of [CellPath::neighbor] pins its result.
pub proof fn law_shift_unique(s: Seq<u8>, t1: Seq<u8>, t2: Seq<u8>, dx: int, dy: int, dz: int)
    requires is_shifted(s, t1, dx, dy, dz), is_shifted(s, t2, dx, dy, dz),
    ensures t1 == t2,
{
    crate::path_model::lemma_coords_determine(t1, t2);
}

/// A zero offset keeps every path.
pub proof fn law_neighbor_zero(p: CellPath)
    ensures in_grid(p@, 0, 0, 0), is_shifted(p@, p@, 0, 0, 0),
{
    p.lemma_octants();
    crate::path_model::lemma_coord_bound(p@, 0);
    crate::path_model::lemma_coord_bound(p@, 1);
    crate::path_model::lemma_coord_bound(p@, 2);
}

/// Paths of one depth are told apart by their [index](CellPath::index), which stays below
/// `8^depth`.
pub proof fn law_index_unique(a: CellPath, b: CellPath)
    requires a@.len() == b@.len(), seq_value(a@) == seq_value(b@),
    ensures a@ == b@,
{
    a.lemma_octants();
    b.lemma_octants();
    crate::path_model::lemma_seq_value_injective(a@, b@);
}

/// Every path of depth `d` has an index below `8^d`, so [all_iter](CellPath::all_iter)
/// lists it at that position.
pub proof fn law_index_bounded(p: CellPath)
    ensures seq_value(p@) < pow8(p@.len()),
{
    p.lemma_octants();
    lemma_seq_value_bound(p@);
}

/// The index takes every value below `8^d` on the paths of depth `d`: each such
/// number is the index of a path of that depth.
pub proof fn law_index_onto(d: nat, n: nat)
    requires d <= 42, n < pow8(d),
    ensures
        exists|p: CellPath| (#[trigger] p@).len() == d && seq_value(p@) == n,
{
    crate::path_model::lemma_digits(n, d);
    let raw = pow8(d) + n;
    lemma_pow8_41();
    if d <= 41 {
        lemma_pow8_monotonic(d, 41);
    } else {
        assert(pow8(42) == 8 * pow8(41));
    }
    assert(raw < 0x1_0000_0000_0000_0000_0000_0000_0000_0000);
    assert(raw as u128 as nat == raw);
    assert(valid_raw(raw as u128));
    let p = CellPath(raw as u128);
    assert(p@ == crate::path_model::digits(n, d));
}

/// An offset of at most one cell along each axis.
pub open spec fn unit_offset(o: (int, int, int)) -> bool {
    -1 <= o.0 <= 1 && -1 <= o.1 <= 1 && -1 <= o.2 <= 1
}

/// The rank of a unit offset among the 27, x varying slowest and z fastest.
pub open spec fn offset_rank(o: (int, int, int)) -> int {
    (o.0 + 1) * 9 + (o.1 + 1) * 3 + (o.2 + 1)
}

proof fn lemma_offset(k: int)
    requires 0 <= k < 27,
    ensures unit_offset(offset(k)), offset_rank(offset(k)) == k,
{
    assert(0 <= k / 9 < 3);
    assert(k == (k / 9) * 9 + (k / 3) % 3 * 3 + k % 3) by {
        assert(k / 3 == (k / 9) * 3 + (k / 3) % 3);
    }
}

proof fn lemma_offset_rank(o: (int, int, int))
    requires unit_offset(o),
    ensures 0 <= offset_rank(o) < 27, offset(offset_rank(o)) == o,
{
    let k = offset_rank(o);
    assert(k / 9 == o.0 + 1);
    assert(k / 3 == (o.0 + 1) * 3 + (o.1 + 1));
    assert((k / 3) % 3 == o.1 + 1);
    assert(k % 3 == o.2 + 1);
}

proof fn lemma_neighbor_offsets(s: Seq<u8>, k: nat)
    requires k <= 27,
    ensures
        forall|i: int| 0 <= i < neighbor_offsets(s, k).len() ==> {
            let o = #[trigger] neighbor_offsets(s, k)[i];
            &&& unit_offset(o)
            &&& o != (0int, 0int, 0int)
            &&& in_grid(s, o.0, o.1, o.2)
            &&& offset_rank(o) < k
        },
        forall|i: int, j: int| 0 <= i < j < neighbor_offsets(s, k).len() ==>
            offset_rank(#[trigger] neighbor_offsets(s, k)[i]) < offset_rank(#[trigger] neighbor_offsets(s, k)[j]),
        forall|o: (int, int, int)| unit_offset(o) && o != (0int, 0int, 0int) && in_grid(s, o.0, o.1, o.2)
            && offset_rank(o) < k ==> #[trigger] neighbor_offsets(s, k).contains(o),
    decreases k,
{
    if k > 0 {
        let prev = neighbor_offsets(s, (k - 1) as nat);
        lemma_neighbor_offsets(s, (k - 1) as nat);
        lemma_offset(k - 1);
        let o = offset(k - 1);
        let cur = neighbor_offsets(s, k);
        assert forall|q: (int, int, int)| unit_offset(q) && q != (0int, 0int, 0int) && in_grid(s, q.0, q.1, q.2)
            && offset_rank(q) < k implies #[trigger] cur.contains(q) by {
            lemma_offset_rank(q);
            if offset_rank(q) < k - 1 {
                assert(prev.contains(q));
                let i = choose|i: int| 0 <= i < prev.len() && prev[i] == q;
                assert(cur[i] == q);
            } else {
                assert(q == o);
                assert(cur[cur.len() - 1] == q);
            }
        }
    }
}

/// [neighbors](CellPath::neighbors) yields each neighbour once, in increasing order of its
/// offset with x varying slowest: its offsets are exactly the unit offsets other than
/// `(0, 0, 0)` whose neighbour exists, each once, in increasing rank.
pub proof fn law_neighbors_each_once(p: CellPath)
    ensures
        forall|i: int| 0 <= i < neighbor_offsets(p@, 27).len() ==> {
            let o = #[trigger] neighbor_offsets(p@, 27)[i];
            unit_offset(o) && o != (0int, 0int, 0int) && in_grid(p@, o.0, o.1, o.2)
        },
        forall|i: int, j: int| 0 <= i < j < neighbor_offsets(p@, 27).len() ==>
            offset_rank(#[trigger] neighbor_offsets(p@, 27)[i]) < offset_rank(#[trigger] neighbor_offsets(p@, 27)[j]),
        forall|o: (int, int, int)| unit_offset(o) && o != (0int, 0int, 0int) && in_grid(p@, o.0, o.1, o.2)
            ==> #[trigger] neighbor_offsets(p@, 27).contains(o),
{
    lemma_neighbor_offsets(p@, 27);
    assert forall|o: (int, int, int)| unit_offset(o) && o != (0int, 0int, 0int) && in_grid(p@, o.0, o.1, o.2)
        implies #[trigger] neighbor_offsets(p@, 27).contains(o) by {
        lemma_offset_rank(o);
    }
}

/// Taking the first `d` octants and reparenting by `d` split a path in two halves whose
/// extension is the path itself.
pub proof fn law_take_reparent(p: CellPath, d: int)
    requires 0 <= d <= p@.len(),
    ensures p@.take(d) + p@.skip(d) == p@,
{
    assert(p@.take(d) + p@.skip(d) =~= p@);
}

/// Popping from the root end undoes [push_back](CellPath::push_back), and taking the
/// parent undoes [push](CellPath::push).
pub proof fn law_push_undone(p: CellPath, v: u8)
    ensures
        (seq![v] + p@)[0] == v,
        (seq![v] + p@).drop_first() == p@,
        p@.push(v).drop_last() == p@,
        p@.push(v).last() == v,
{
    assert((seq![v] + p@).drop_first() =~= p@);
    assert(p@.push(v).drop_last() =~= p@);
}

/// The binary digits of `n`, most significant first, without leading zeros ("0" for zero).
pub open spec fn binary_digits(n: nat) -> Seq<char>
    decreases n,
{
    if n < 2 {
        seq![if n == 0 { '0' } else { '1' }]
    } else {
        binary_digits(n / 2).push(if n % 2 == 0 { '0' } else { '1' })
    }
}

/// The text that describes a path: `CellPath(`, the binary digits of its raw value, `)`.
pub open spec fn debug_text(raw: nat) -> Seq<char> {
    seq!['C', 'e', 'l', 'l', 'P', 'a', 't', 'h', '('] + binary_digits(raw) + seq![')']
}

/// Appends the binary digits of `n` to `out`.
fn append_binary(out: &mut String, n: u128)
    ensures final(out)@ == old(out)@ + binary_digits(n as nat),
    decreases n,
{
    proof {
        reveal_strlit("0");
        reveal_strlit("1");
    }
    if n < 2 {
        if n == 0 {
            out.append("0");
        } else {
            out.append("1");
        }
    } else {
        let ghost before = out@;
        append_binary(out, n / 2);
        if n % 2 == 0 {
            out.append("0");
        } else {
            out.append("1");
        }
        proof {
            assert((n as nat) / 2 == (n / 2) as nat);
            assert(before + binary_digits(n as nat) =~= before + binary_digits((n / 2) as nat) + seq![if n % 2 == 0 { '0' } else { '1' }]);
        }
    }
}

impl CellPath {
    /// The text that describes this path: its raw value in binary, inside `CellPath(` and `)`.
    pub fn debug_string(&self) -> (r: String)
        ensures r@ == debug_text(encode(self@)),
    {
        proof {
            reveal_strlit("CellPath(");
            reveal_strlit(")");
        }
        let raw = self.raw();
        let mut out = String::from_str("CellPath(");
        append_binary(&mut out, raw);
        out.append(")");
        proof {
            assert(out@ =~= debug_text(raw as nat));
        }
        out
    }
}

impl Default for CellPath {
    /// The empty path, as [new](CellPath::new).
    fn default() -> (r: CellPath)
        ensures r@ == Seq::<u8>::empty(),
    {
        CellPath::new()
    }
}

} // verus!
