//! Address spaces: the registry of spaces an architecture defines, addresses inside them,
//! and sets of address ranges.
//!
//! A [`Space`] is registered once per architecture and referenced everywhere by its
//! [`SpaceId`]; an [`Address`] is `(SpaceId, offset)`.

use vstd::prelude::*;
use vstd::arithmetic::power2::*;

verus! {

/// The kind of an address space.
#[derive(Clone, Copy, PartialEq, Eq, Structural, Debug)]
pub enum SpaceKind {
    /// The constant pool: an offset is a literal value.
    Constant,
    /// Real memory or registers (`ram`, `register`).
    Processor,
    /// The `unique` temporary space.
    Internal,
    /// A register-relative space (the stack).
    Spacebase,
    /// Internal annotation spaces.
    Special,
}

/// A handle to a registered [`Space`]: an index into the [`SpaceManager`].
#[derive(Clone, Copy, PartialEq, Eq, Structural, PartialOrd, Ord, Hash, Debug)]
pub struct SpaceId(pub u32);

/// A storage location or constant value: a space plus an offset.
/// A `Constant`-space address holds a literal value in `offset`.
#[derive(Clone, Copy, PartialEq, Eq, Structural, Hash, Debug)]
pub struct Address {
    pub space: SpaceId,
    pub offset: u64,
}

impl Address {
    pub fn new(space: SpaceId, offset: u64) -> (r: Address)
        ensures
            r.space == space,
            r.offset == offset,
    {
        Address { space, offset }
    }
}

/// One registered address space.
#[derive(Clone, Debug)]
pub struct Space {
    pub id: SpaceId,
    pub name: String,
    pub kind: SpaceKind,
    /// Address size in bytes (e.g. 8 for a 64-bit `ram`).
    pub addr_size: u32,
    /// Whether values in this space are stored most-significant byte first.
    pub big_endian: bool,
    /// Bytes per addressable unit (1 for byte-addressable spaces).
    pub wordsize: u32,
    /// Number of heritage passes to delay before this space first enters SSA construction.
    pub delay: i32,
    /// Number of passes before dead-code removal is allowed on this space.
    pub deadcodedelay: i32,
    /// The base register(s) that make this a virtual `Spacebase` space.
    pub spacebase: Vec<(Address, u32)>,
    /// For a `Spacebase` space, the physical space it is a placeholder into.
    pub contain: Option<SpaceId>,
}

/// The largest value of an unsigned integer `bytes` bytes wide (all ones), saturating at 64 bits.
pub open spec fn byte_mask(bytes: nat) -> u64 {
    if bytes >= 8 {
        u64::MAX
    } else {
        (pow2(8 * bytes) - 1) as u64
    }
}

/// `(1 << 8*n) - 1` is the low-`n`-byte mask, for `n < 8`.
pub proof fn lemma_shift_mask(n: u32)
    requires
        n < 8,
    ensures
        (1u64 << ((n * 8) as u32)) - 1 == byte_mask(n as nat),
        1u64 << ((n * 8) as u32) >= 1,
{
    lemma2_to64();
    lemma2_to64_rest();
    let s: u32 = (n * 8) as u32;
    if n == 0 {
        assert(1u64 << s == 1) by (bit_vector) requires s == 0;
        assert(pow2(8 * (n as nat)) == 1);
    } else if n == 1 {
        assert(1u64 << s == 0x100) by (bit_vector) requires s == 8;
        assert(pow2(8 * (n as nat)) == 0x100);
    } else if n == 2 {
        assert(1u64 << s == 0x10000) by (bit_vector) requires s == 16;
        assert(pow2(8 * (n as nat)) == 0x10000);
    } else if n == 3 {
        assert(1u64 << s == 0x1000000) by (bit_vector) requires s == 24;
        assert(pow2(8 * (n as nat)) == 0x1000000);
    } else if n == 4 {
        assert(1u64 << s == 0x100000000) by (bit_vector) requires s == 32;
        assert(pow2(8 * (n as nat)) == 0x100000000);
    } else if n == 5 {
        assert(1u64 << s == 0x10000000000) by (bit_vector) requires s == 40;
        assert(pow2(8 * (n as nat)) == 0x10000000000);
    } else if n == 6 {
        assert(1u64 << s == 0x1000000000000) by (bit_vector) requires s == 48;
        assert(pow2(8 * (n as nat)) == 0x1000000000000);
    } else {
        assert(1u64 << s == 0x100000000000000) by (bit_vector) requires s == 56;
        assert(pow2(8 * (n as nat)) == 0x100000000000000);
    }
}

/// The mask of the low `size` bytes: all ones for 8 bytes or more.
pub fn calc_mask(size: u32) -> (r: u64)
    ensures
        r == byte_mask(size as nat),
{
    if size >= 8 {
        u64::MAX
    } else {
        proof {
            lemma_shift_mask(size);
        }
        (1u64 << (size * 8)) - 1
    }
}

/// The largest byte offset a space of `addr_size` bytes and `wordsize`-byte units can hold.
pub open spec fn highest_spec(addr_size: u32, wordsize: u32) -> int {
    let mask = byte_mask(addr_size as nat) as int;
    if wordsize > 1 {
        mask * wordsize + (wordsize - 1)
    } else {
        mask
    }
}

/// `off` folded into a space whose largest offset is `highest`: unchanged when it fits,
/// otherwise `off`, read as a signed 64-bit value, reduced modulo `highest + 1`.
pub open spec fn wrap_offset_spec(highest: u64, off: u64) -> int {
    if off <= highest {
        off as int
    } else if off < 0x8000_0000_0000_0000 {
        off as int % (highest + 1)
    } else {
        (off as int - 0x1_0000_0000_0000_0000) % (highest + 1)
    }
}

impl Space {
    pub fn is_constant(&self) -> (r: bool)
        ensures
            r == (self.kind == SpaceKind::Constant),
    {
        self.kind == SpaceKind::Constant
    }

    /// Whether dataflow is traced through this space: on for memory, registers, temporaries and
    /// the stack; off for the constant and annotation spaces.
    pub fn is_heritaged(&self) -> (r: bool)
        ensures
            r == (self.kind == SpaceKind::Processor || self.kind == SpaceKind::Internal
                || self.kind == SpaceKind::Spacebase),
    {
        match self.kind {
            SpaceKind::Processor | SpaceKind::Internal | SpaceKind::Spacebase => true,
            _ => false,
        }
    }

    /// The largest byte offset this space can hold.
    pub fn highest(&self) -> (r: u64)
        requires
            highest_spec(self.addr_size, self.wordsize) <= u64::MAX,
        ensures
            r == highest_spec(self.addr_size, self.wordsize),
    {
        let mask: u64 = if self.addr_size >= 8 {
            u64::MAX
        } else {
            proof {
                lemma_shift_mask(self.addr_size);
            }
            (1u64 << (self.addr_size * 8)) - 1
        };
        if self.wordsize > 1 {
            assert(mask as int * self.wordsize as int + (self.wordsize - 1) <= u64::MAX);
            assert(mask * self.wordsize <= u64::MAX) by (nonlinear_arith)
                requires
                    mask as int * self.wordsize as int + (self.wordsize - 1) <= u64::MAX,
                    self.wordsize > 1,
            ;
            mask * self.wordsize as u64 + (self.wordsize as u64 - 1)
        } else {
            mask
        }
    }

    /// Fold `off` into this space's offset range: an offset that fits is returned unchanged,
    /// a larger one wraps modulo the space size (read as a signed value, so a negative
    /// displacement lands at the top of the space).
    pub fn wrap_offset(&self, off: u64) -> (r: u64)
        requires
            highest_spec(self.addr_size, self.wordsize) < 0x8000_0000_0000_0000
                || highest_spec(self.addr_size, self.wordsize) == u64::MAX,
        ensures
            r == wrap_offset_spec(highest_spec(self.addr_size, self.wordsize) as u64, off),
    {
        let highest = self.highest();
        if off <= highest {
            return off;
        }
        // Here `highest` is below 2^63, so the modulus `highest + 1` is positive and fits.
        let m: u64 = highest + 1;
        if off < 0x8000_0000_0000_0000 {
            off % m
        } else {
            // `off` is negative as a signed value: `off - 2^64`. Its Euclidean residue is
            // `m - ((2^64 - off) % m)` unless that remainder is zero.
            let neg: u64 = (u64::MAX - off) + 1;
            let rem: u64 = neg % m;
            proof {
                lemma_neg_mod(off as int, m as int, neg as int, rem as int);
            }
            if rem == 0 {
                0
            } else {
                m - rem
            }
        }
    }
}

/// `(off - 2^64) mod m` in terms of `(2^64 - off) % m`.
proof fn lemma_neg_mod(off: int, m: int, neg: int, rem: int)
    requires
        m > 0,
        0 <= off <= 0x1_0000_0000_0000_0000,
        neg == 0x1_0000_0000_0000_0000 - off,
        rem == neg % m,
    ensures
        (off - 0x1_0000_0000_0000_0000) % m == (if rem == 0 { 0 } else { m - rem }),
{
    let x = off - 0x1_0000_0000_0000_0000;
    assert(x == -neg);
    vstd::arithmetic::div_mod::lemma_fundamental_div_mod(neg, m);
    let q = neg / m;
    assert(neg == m * q + rem);
    if rem == 0 {
        assert(x == m * (-q)) by (nonlinear_arith)
            requires
                x == -neg,
                neg == m * q,
        ;
        vstd::arithmetic::div_mod::lemma_mod_multiples_basic(-q, m);
        assert(m * (-q) == (-q) * m) by (nonlinear_arith);
    } else {
        assert(x == m * (-q - 1) + (m - rem)) by (nonlinear_arith)
            requires
                x == -neg,
                neg == m * q + rem,
        ;
        vstd::arithmetic::div_mod::lemma_mod_pos_bound(neg, m);
        vstd::arithmetic::div_mod::lemma_fundamental_div_mod_converse(x, m, -q - 1, m - rem);
    }
}

} // verus!

verus! {

/// A contiguous, inclusive `[first,last]` byte range within one address space.
#[derive(Clone, Copy, PartialEq, Eq, Structural, PartialOrd, Ord, Debug)]
pub struct Range {
    pub spc: SpaceId,
    pub first: u64,
    pub last: u64,
}

/// Range `a` lies entirely before range `b`, with a gap between them: in an earlier space, or
/// in the same space and ending more than one byte before `b` starts.
pub open spec fn range_before(a: Range, b: Range) -> bool {
    a.spc.0 < b.spc.0 || (a.spc == b.spc && a.last + 1 < b.first)
}

/// A well-formed range list: every range is non-empty and the ranges are sorted, pairwise
/// disjoint and not adjacent (two ranges of one space always leave a gap).
pub open spec fn ranges_wf(s: Seq<Range>) -> bool {
    &&& forall|i: int| 0 <= i < s.len() ==> #[trigger] s[i].first <= s[i].last
    &&& forall|i: int, j: int| 0 <= i < j < s.len() ==> range_before(#[trigger] s[i], #[trigger] s[j])
}

/// Offset `off` of space `spc` lies in some range of `s`.
pub open spec fn ranges_cover(s: Seq<Range>, spc: SpaceId, off: u64) -> bool {
    exists|i: int| 0 <= i < s.len() && #[trigger] s[i].spc == spc && s[i].first <= off && off <= s[i].last
}

/// Range `r` shares at least one offset with `[first,last]` of space `spc`.
pub open spec fn range_touches(r: Range, spc: SpaceId, first: u64, last: u64) -> bool {
    r.spc == spc && r.first <= last && first <= r.last
}

/// Range `r` overlaps `[first,last]` of space `spc` or lies right next to it.
pub open spec fn range_meets(r: Range, spc: SpaceId, first: u64, last: u64) -> bool {
    r.spc == spc && r.first <= last + 1 && first <= r.last + 1
}

/// Range `r` starts at or before `(spc, off)` in the list's order.
pub open spec fn starts_at_or_before(r: Range, spc: SpaceId, off: u64) -> bool {
    r.spc.0 < spc.0 || (r.spc == spc && r.first <= off)
}

/// The last offset of the `size`-byte span starting at `off`, computed with 64-bit wrap-around.
pub open spec fn span_end(off: u64, size: u32) -> int {
    (off + size - 1) % 0x1_0000_0000_0000_0000
}

/// The answer `in_range` gives: the last range starting at or before the address is in the
/// address's space and reaches the end of the span.
pub open spec fn in_range_spec(s: Seq<Range>, addr: Address, size: u32) -> bool {
    exists|i: int|
        0 <= i < s.len() && #[trigger] s[i].spc == addr.space && s[i].first <= addr.offset
            && (i + 1 < s.len() ==> !starts_at_or_before(s[i + 1], addr.space, addr.offset))
            && s[i].last >= span_end(addr.offset, size)
}

/// A set of address ranges kept as a sorted, disjoint, non-adjacent cover.
#[derive(Debug, PartialEq, Eq)]
pub struct RangeList {
    tree: Vec<Range>,
}

impl Clone for RangeList {
    fn clone(&self) -> (r: RangeList)
        ensures
            r@ == self@,
    {
        proof {
            use_type_invariant(self);
        }
        RangeList { tree: self.tree.clone() }
    }
}

impl Default for RangeList {
    fn default() -> (r: RangeList)
        ensures
            r@ == Seq::<Range>::empty(),
    {
        RangeList { tree: Vec::new() }
    }
}

impl View for RangeList {
    type V = Seq<Range>;

    closed spec fn view(&self) -> Seq<Range> {
        self.tree@
    }
}

/// In a well-formed list, once a range starts after `(spc, off)` so does every later one.
proof fn lemma_after_is_suffix_closed(s: Seq<Range>, spc: SpaceId, off: u64, r: int, k: int)
    requires
        ranges_wf(s),
        0 <= r < k < s.len(),
        !starts_at_or_before(s[r], spc, off),
    ensures
        !starts_at_or_before(s[k], spc, off),
{
    assert(range_before(s[r], s[k]));
    assert(s[r].first <= s[r].last);
}

impl RangeList {
    #[verifier::type_invariant]
    spec fn inv(self) -> bool {
        ranges_wf(self.tree@)
    }

    pub fn new() -> (r: RangeList)
        ensures
            r@ == Seq::<Range>::empty(),
    {
        RangeList { tree: Vec::new() }
    }

    pub fn is_empty(&self) -> (r: bool)
        ensures
            r == (self@.len() == 0),
    {
        self.tree.len() == 0
    }

    /// The ranges in order.
    pub fn iter(&self) -> (r: std::slice::Iter<'_, Range>)
        ensures
            vstd::std_specs::slice::into_iter_elts(r) == self@,
    {
        let r = self.tree.as_slice().iter();
        proof {
            broadcast use vstd::std_specs::slice::axiom_spec_slice_iter;
            assert(self.tree@.as_ref().unref() =~= self.tree@);
        }
        r
    }

    /// The index of the first range ordering strictly after the probe `(spc, off)`.
    fn upper_bound(&self, spc: SpaceId, off: u64) -> (r: usize)
        ensures
            r <= self@.len(),
            forall|k: int| 0 <= k < r ==> starts_at_or_before(#[trigger] self@[k], spc, off),
            forall|k: int| r <= k < self@.len() ==> !starts_at_or_before(#[trigger] self@[k], spc, off),
    {
        proof {
            use_type_invariant(self);
        }
        let mut i: usize = 0;
        while i < self.tree.len()
            invariant
                i <= self.tree@.len(),
                ranges_wf(self.tree@),
                forall|k: int| 0 <= k < i ==> starts_at_or_before(#[trigger] self.tree@[k], spc, off),
            decreases self.tree@.len() - i,
        {
            let r = self.tree[i];
            if !(r.spc.0 < spc.0 || (r.spc.0 == spc.0 && r.first <= off)) {
                proof {
                    assert forall|k: int| i <= k < self.tree@.len() implies !starts_at_or_before(
                        #[trigger] self.tree@[k],
                        spc,
                        off,
                    ) by {
                        if k > i {
                            lemma_after_is_suffix_closed(self.tree@, spc, off, i as int, k);
                        }
                    }
                }
                return i;
            }
            i += 1;
        }
        i
    }

    /// Is `[addr, addr+size)` fully contained in a single range of this list? An empty list
    /// contains nothing.
    pub fn in_range(&self, addr: Address, size: u32) -> (r: bool)
        ensures
            r == in_range_spec(self@, addr, size),
    {
        proof {
            use_type_invariant(self);
        }
        if self.tree.len() == 0 {
            return false;
        }
        let iter = self.upper_bound(addr.space, addr.offset);
        if iter == 0 {
            proof {
                assert forall|i: int| 0 <= i < self@.len() && #[trigger] self@[i].spc == addr.space
                    implies !(self@[i].first <= addr.offset) by {
                    assert(!starts_at_or_before(self@[i], addr.space, addr.offset));
                }
            }
            return false;
        }
        let r = self.tree[iter - 1];
        let end: u64 = addr.offset.wrapping_add(size as u64).wrapping_sub(1);
        proof {
            let i = iter - 1;
            assert(end == span_end(addr.offset, size));
            // Only the predecessor of the probe can be the witness.
            assert forall|j: int|
                0 <= j < self@.len() && #[trigger] self@[j].spc == addr.space && self@[j].first
                    <= addr.offset && (j + 1 < self@.len() ==> !starts_at_or_before(
                    self@[j + 1],
                    addr.space,
                    addr.offset,
                )) implies j == i by {
                assert(starts_at_or_before(self@[j], addr.space, addr.offset));
                if j < i {
                    assert(starts_at_or_before(self@[j + 1], addr.space, addr.offset));
                }
            }
        }
        if r.spc.0 != addr.space.0 {
            return false;
        }
        r.last >= end
    }
}

} // verus!

verus! {

/// The list `s` with the ranges `[i1, i2)` replaced by `ins`.
pub open spec fn splice_one(s: Seq<Range>, i1: int, i2: int, ins: Range) -> Seq<Range> {
    s.subrange(0, i1).push(ins) + s.subrange(i2, s.len() as int)
}

proof fn lemma_splice_one_index(s: Seq<Range>, i1: int, i2: int, ins: Range, k: int)
    requires
        0 <= i1 <= i2 <= s.len(),
        0 <= k < splice_one(s, i1, i2, ins).len(),
    ensures
        splice_one(s, i1, i2, ins).len() == s.len() - (i2 - i1) + 1,
        k < i1 ==> splice_one(s, i1, i2, ins)[k] == s[k],
        k == i1 ==> splice_one(s, i1, i2, ins)[k] == ins,
        k > i1 ==> splice_one(s, i1, i2, ins)[k] == s[k - i1 - 1 + i2],
{
}

/// Replacing the ranges that overlap or adjoin `[first,last]` by their union with it keeps the
/// list well-formed and adds exactly `[first,last]` to what the list covers.
proof fn lemma_insert_splice(
    s: Seq<Range>,
    spc: SpaceId,
    first: u64,
    last: u64,
    hi: u64,
    i1: int,
    i2: int,
    nfirst: u64,
    nlast: u64,
)
    requires
        ranges_wf(s),
        first <= last,
        hi as int == if last == u64::MAX { last as int } else { last + 1 },
        0 <= i1 <= i2 <= s.len(),
        forall|k: int| 0 <= k < i1 ==> (#[trigger] s[k]).spc.0 < spc.0 || (s[k].spc == spc && s[k].last + 1 < first),
        forall|k: int| i1 <= k < i2 ==> (#[trigger] s[k]).spc == spc && s[k].first <= last + 1 && s[k].last + 1 >= first,
        forall|k: int| i2 <= k < s.len() ==> !starts_at_or_before(#[trigger] s[k], spc, hi),
        nfirst <= first,
        nlast >= last,
        forall|k: int| i1 <= k < i2 ==> nfirst <= (#[trigger] s[k]).first && s[k].last <= nlast,
        nfirst == first || exists|k: int| i1 <= k < i2 && (#[trigger] s[k]).first == nfirst,
        nlast == last || exists|k: int| i1 <= k < i2 && (#[trigger] s[k]).last == nlast,
    ensures
        ({
            let t = splice_one(s, i1, i2, Range { spc, first: nfirst, last: nlast });
            &&& ranges_wf(t)
            &&& forall|sp: SpaceId, o: u64|
                ranges_cover(t, sp, o) <==> (ranges_cover(s, sp, o) || (sp == spc && first <= o
                    && o <= last))
            &&& forall|k: int|
                0 <= k < s.len() && !range_meets(#[trigger] s[k], spc, first, last) ==> t.contains(s[k])
            &&& forall|k: int|
                0 <= k < t.len() ==> s.contains(#[trigger] t[k]) || (t[k].spc == spc && t[k].first
                    <= first && last <= t[k].last)
            &&& exists|k: int| 0 <= k < t.len() && #[trigger] t[k].spc == spc && t[k].first <= first && last <= t[k].last
        }),
{
    let ins = Range { spc, first: nfirst, last: nlast };
    lemma_splice_one_index(s, i1, i2, ins, i1);
    assert(splice_one(s, i1, i2, ins)[i1].spc == spc);
    let t = splice_one(s, i1, i2, ins);
    assert(t.len() == s.len() - (i2 - i1) + 1);
    // Well-formedness.
    assert forall|i: int| 0 <= i < t.len() implies #[trigger] t[i].first <= t[i].last by {
        lemma_splice_one_index(s, i1, i2, ins, i);
    }
    assert forall|i: int, j: int| 0 <= i < j < t.len() implies range_before(#[trigger] t[i], #[trigger] t[j]) by {
        lemma_splice_one_index(s, i1, i2, ins, i);
        lemma_splice_one_index(s, i1, i2, ins, j);
        if i < i1 {
            if j == i1 {
                if s[i].spc == spc {
                    if nfirst != first {
                        let m = choose|m: int| i1 <= m < i2 && (#[trigger] s[m]).first == nfirst;
                        assert(range_before(s[i], s[m]));
                    }
                }
            } else if j > i1 {
                assert(range_before(s[i], s[j - i1 - 1 + i2]));
            }
        } else if i == i1 {
            let jj = j - i1 - 1 + i2;
            assert(!starts_at_or_before(s[jj], spc, last));
            if s[jj].spc == spc {
                if nlast != last {
                    let m = choose|m: int| i1 <= m < i2 && (#[trigger] s[m]).last == nlast;
                    assert(range_before(s[m], s[jj]));
                }
            }
        } else {
            assert(range_before(s[i - i1 - 1 + i2], s[j - i1 - 1 + i2]));
        }
    }
    // Coverage.
    assert forall|sp: SpaceId, o: u64|
        ranges_cover(t, sp, o) <==> (ranges_cover(s, sp, o) || (sp == spc && first <= o && o <= last)) by {
        if ranges_cover(t, sp, o) {
            let k = choose|k: int| 0 <= k < t.len() && #[trigger] t[k].spc == sp && t[k].first <= o && o <= t[k].last;
            lemma_splice_one_index(s, i1, i2, ins, k);
            if k < i1 {
                assert(s[k].spc == sp);
            } else if k > i1 {
                assert(s[k - i1 - 1 + i2].spc == sp);
            } else if o < first {
                let m = choose|m: int| i1 <= m < i2 && (#[trigger] s[m]).first == nfirst;
                assert(s[m].spc == sp);
            } else if o > last {
                let m = choose|m: int| i1 <= m < i2 && (#[trigger] s[m]).last == nlast;
                assert(s[m].spc == sp);
            }
        }
        if ranges_cover(s, sp, o) {
            let k = choose|k: int| 0 <= k < s.len() && #[trigger] s[k].spc == sp && s[k].first <= o && o <= s[k].last;
            if k < i1 {
                lemma_splice_one_index(s, i1, i2, ins, k);
                assert(t[k].spc == sp);
            } else if k >= i2 {
                lemma_splice_one_index(s, i1, i2, ins, k - i2 + i1 + 1);
                assert(t[k - i2 + i1 + 1].spc == sp);
            } else {
                lemma_splice_one_index(s, i1, i2, ins, i1);
                assert(t[i1].spc == sp);
            }
        }
        if sp == spc && first <= o && o <= last {
            lemma_splice_one_index(s, i1, i2, ins, i1);
            assert(t[i1].spc == sp);
        }
    }
    // Untouched ranges survive.
    assert forall|k: int| 0 <= k < s.len() && !range_meets(#[trigger] s[k], spc, first, last) implies t.contains(s[k]) by {
        if k < i1 {
            lemma_splice_one_index(s, i1, i2, ins, k);
            assert(t[k] == s[k]);
        } else if k >= i2 {
            lemma_splice_one_index(s, i1, i2, ins, k - i2 + i1 + 1);
            assert(t[k - i2 + i1 + 1] == s[k]);
        }
    }
    // Every range is an old one or the merged one.
    assert forall|k: int| 0 <= k < t.len() implies s.contains(#[trigger] t[k]) || (t[k].spc == spc
        && t[k].first <= first && last <= t[k].last) by {
        lemma_splice_one_index(s, i1, i2, ins, k);
        if k < i1 {
            assert(s[k] == t[k]);
        } else if k > i1 {
            assert(s[k - i1 - 1 + i2] == t[k]);
        }
    }
}

impl RangeList {
    /// Add `[first,last]` of space `spc`, absorbing every range it overlaps or adjoins so the
    /// cover stays disjoint and non-adjacent.
    #[verifier::rlimit(60)]
    #[verifier::spinoff_prover]
    pub fn insert_range(&mut self, spc: SpaceId, first: u64, last: u64)
        requires
            first <= last,
        ensures
            ranges_wf(final(self)@),
            forall|sp: SpaceId, o: u64|
                ranges_cover(final(self)@, sp, o) <==> (ranges_cover(old(self)@, sp, o) || (sp == spc
                    && first <= o && o <= last)),
            forall|k: int|
                0 <= k < old(self)@.len() && !range_meets(#[trigger] old(self)@[k], spc, first, last)
                    ==> final(self)@.contains(old(self)@[k]),
            forall|k: int|
                0 <= k < final(self)@.len() ==> old(self)@.contains(#[trigger] final(self)@[k]) || (
                final(self)@[k].spc == spc && final(self)@[k].first <= first && last <= final(self)@[k].last),
            exists|k: int|
                0 <= k < final(self)@.len() && #[trigger] final(self)@[k].spc == spc && final(self)@[k].first
                    <= first && last <= final(self)@[k].last,
            forall|size: u32|
                1 <= size && first + size - 1 <= last ==> #[trigger] in_range_spec(
                    final(self)@,
                    Address { space: spc, offset: first },
                    size,
                ),
    {
        proof {
            use_type_invariant(&*self);
        }
        let ghost s = self.tree@;
        let u1 = self.upper_bound(spc, first);
        let mut iter1: usize = u1;
        if iter1 != 0 {
            iter1 -= 1;
            if self.tree[iter1].spc.0 != spc.0 || (first > 0 && self.tree[iter1].last < first - 1) {
                iter1 += 1;
            }
        }
        let hi: u64 = if last < u64::MAX { last + 1 } else { last };
        let iter2 = self.upper_bound(spc, hi);
        proof {
            assert forall|k: int| 0 <= k < iter1 implies (#[trigger] s[k]).spc.0 < spc.0 || (s[k].spc == spc
                && s[k].last + 1 < first) by {
                assert(starts_at_or_before(s[k], spc, first));
                let p = u1 - 1;
                if k < p {
                    assert(range_before(s[k], s[p]));
                    assert(starts_at_or_before(s[p], spc, first));
                    assert(s[p].first <= s[p].last);
                }
            }
            if iter1 > iter2 {
                assert(starts_at_or_before(s[iter2 as int], spc, first));
            }
            assert forall|k: int| iter1 <= k < iter2 implies (#[trigger] s[k]).spc == spc && s[k].first <= last + 1
                && s[k].last + 1 >= first by {
                assert(starts_at_or_before(s[k], spc, hi));
                if k >= u1 {
                    assert(!starts_at_or_before(s[k], spc, first));
                    assert(s[k].first <= s[k].last);
                }
            }
        }
        let mut nfirst = first;
        let mut nlast = last;
        let mut i = iter1;
        while i < iter2
            invariant
                iter1 <= i <= iter2 <= s.len(),
                s == self.tree@,
                nfirst <= first,
                nlast >= last,
                forall|k: int| iter1 <= k < i ==> nfirst <= (#[trigger] s[k]).first && s[k].last <= nlast,
                nfirst == first || exists|k: int| iter1 <= k < iter2 && (#[trigger] s[k]).first == nfirst,
                nlast == last || exists|k: int| iter1 <= k < iter2 && (#[trigger] s[k]).last == nlast,
            decreases iter2 - i,
        {
            let r = self.tree[i];
            if r.first < nfirst {
                nfirst = r.first;
            }
            if r.last > nlast {
                nlast = r.last;
            }
            i += 1;
        }
        let ins = Range { spc, first: nfirst, last: nlast };
        let mut v: Vec<Range> = Vec::new();
        let mut k: usize = 0;
        while k < iter1
            invariant
                k <= iter1 <= iter2 <= s.len(),
                s == self.tree@,
                v@ == s.subrange(0, k as int),
            decreases iter1 - k,
        {
            v.push(self.tree[k]);
            k += 1;
        }
        v.push(ins);
        let mut k: usize = iter2;
        while k < self.tree.len()
            invariant
                iter1 <= iter2 <= k <= s.len(),
                s == self.tree@,
                v@ == s.subrange(0, iter1 as int).push(ins) + s.subrange(iter2 as int, k as int),
            decreases s.len() - k,
        {
            v.push(self.tree[k]);
            k += 1;
            proof {
                assert(s.subrange(iter2 as int, k as int) =~= s.subrange(iter2 as int, k - 1).push(s[k - 1]));
            }
        }
        proof {
            assert(v@ =~= splice_one(s, iter1 as int, iter2 as int, ins));
            lemma_insert_splice(s, spc, first, last, hi, iter1 as int, iter2 as int, nfirst, nlast);
            assert forall|size: u32| 1 <= size && first + size - 1 <= last implies #[trigger] in_range_spec(
                v@,
                Address { space: spc, offset: first },
                size,
            ) by {
                law_in_range_is_single_range_containment(v@, Address { space: spc, offset: first }, size);
                let k = choose|k: int| 0 <= k < v@.len() && #[trigger] v@[k].spc == spc && v@[k].first <= first && last <= v@[k].last;
                assert(v@[k].spc == spc);
            }
        }
        self.tree = v;
        proof {
            lemma_splice_one_index(s, iter1 as int, iter2 as int, ins, iter1 as int);
            assert(self@[iter1 as int].spc == spc);
        }
    }
}

} // verus!

verus! {

/// The pieces of the ranges `[i1, i2)` of `s` that lie outside `[first,last]`: the part of the
/// first one before `first`, and the part of the last one after `last`.
pub open spec fn outside_pieces(s: Seq<Range>, spc: SpaceId, first: u64, last: u64, i1: int, i2: int) -> Seq<Range> {
    if i1 >= i2 {
        Seq::empty()
    } else {
        let lo = if s[i1].first < first {
            seq![Range { spc, first: s[i1].first, last: (first - 1) as u64 }]
        } else {
            Seq::empty()
        };
        let hi = if s[i2 - 1].last > last {
            seq![Range { spc, first: (last + 1) as u64, last: s[i2 - 1].last }]
        } else {
            Seq::empty()
        };
        lo + hi
    }
}

/// Cutting `[first,last]` out of the ranges that touch it keeps the list well-formed and
/// removes exactly `[first,last]` from what the list covers.
proof fn lemma_remove_splice(s: Seq<Range>, spc: SpaceId, first: u64, last: u64, i1: int, i2: int)
    requires
        ranges_wf(s),
        first <= last,
        0 <= i1 <= i2 <= s.len(),
        forall|k: int| 0 <= k < i1 ==> (#[trigger] s[k]).spc.0 < spc.0 || (s[k].spc == spc && s[k].last < first),
        forall|k: int| i1 <= k < i2 ==> (#[trigger] s[k]).spc == spc && s[k].first <= last && s[k].last >= first,
        forall|k: int| i1 < k < i2 ==> (#[trigger] s[k]).first > first,
        forall|k: int| i2 <= k < s.len() ==> !starts_at_or_before(#[trigger] s[k], spc, last),
    ensures
        ({
            let t = s.subrange(0, i1) + outside_pieces(s, spc, first, last, i1, i2) + s.subrange(i2, s.len() as int);
            &&& ranges_wf(t)
            &&& forall|sp: SpaceId, o: u64|
                ranges_cover(t, sp, o) <==> (ranges_cover(s, sp, o) && !(sp == spc && first <= o
                    && o <= last))
            &&& forall|k: int|
                0 <= k < s.len() && !range_touches(#[trigger] s[k], spc, first, last) ==> t.contains(s[k])
            &&& forall|k: int|
                0 <= k < t.len() ==> s.contains(#[trigger] t[k]) || (t[k].spc == spc && (t[k].last < first
                    || t[k].first > last) && exists|m: int| 0 <= m < s.len() && s[m].spc == spc
                    && s[m].first <= t[k].first && t[k].last <= s[m].last)
        }),
{
    let p = outside_pieces(s, spc, first, last, i1, i2);
    let pre = s.subrange(0, i1);
    let suf = s.subrange(i2, s.len() as int);
    let t = pre + p + suf;
    let np = p.len() as int;
    assert(t.len() == i1 + np + (s.len() - i2));
    // For absorbed ranges before the last, the end lies inside `[first,last]`.
    assert forall|k: int| i1 <= k < i2 - 1 implies (#[trigger] s[k]).last <= last by {
        assert(range_before(s[k], s[k + 1]));
    }
    // The pieces, described.
    assert forall|q: int| 0 <= q < np implies (#[trigger] p[q]).spc == spc && p[q].first <= p[q].last
        && ((p[q].last == first - 1 && p[q].first == s[i1].first) || (p[q].first == last + 1 && p[q].last
        == s[i2 - 1].last)) && (p[q].last < first || p[q].first > last) by {
    }
    assert(np <= 2);
    assert(np == 2 ==> p[0].last < p[1].first);
    let idx = |k: int| if k < i1 { s[k] } else if k < i1 + np { p[k - i1] } else { s[k - i1 - np + i2] };
    assert forall|k: int| 0 <= k < t.len() implies #[trigger] t[k] == idx(k) by {
        if k < i1 {
            assert(t[k] == pre[k]);
        } else if k < i1 + np {
            assert(t[k] == (pre + p)[k]);
        } else {
            assert(t[k] == suf[k - i1 - np]);
        }
    }
    // Well-formedness.
    assert forall|i: int| 0 <= i < t.len() implies #[trigger] t[i].first <= t[i].last by {
        assert(t[i] == idx(i));
    }
    assert forall|i: int, j: int| 0 <= i < j < t.len() implies range_before(#[trigger] t[i], #[trigger] t[j]) by {
        assert(t[i] == idx(i));
        assert(t[j] == idx(j));
        if i < i1 {
            if j < i1 {
            } else if j < i1 + np {
                if s[i].spc == spc && p[j - i1].first == s[i1].first {
                    assert(range_before(s[i], s[i1]));
                }
            } else {
                assert(range_before(s[i], s[j - i1 - np + i2]));
            }
        } else if i < i1 + np {
            if j < i1 + np {
            } else {
                let jj = j - i1 - np + i2;
                assert(!starts_at_or_before(s[jj], spc, last));
                if s[jj].spc == spc && p[i - i1].last == s[i2 - 1].last {
                    assert(range_before(s[i2 - 1], s[jj]));
                }
            }
        } else {
            assert(range_before(s[i - i1 - np + i2], s[j - i1 - np + i2]));
        }
    }
    // Coverage.
    assert forall|sp: SpaceId, o: u64|
        ranges_cover(t, sp, o) <==> (ranges_cover(s, sp, o) && !(sp == spc && first <= o && o <= last)) by {
        if ranges_cover(t, sp, o) {
            let k = choose|k: int| 0 <= k < t.len() && #[trigger] t[k].spc == sp && t[k].first <= o && o <= t[k].last;
            assert(t[k] == idx(k));
            if k < i1 {
                assert(s[k].spc == sp);
            } else if k < i1 + np {
                if p[k - i1].first == s[i1].first {
                    assert(s[i1].spc == sp);
                } else {
                    assert(s[i2 - 1].spc == sp);
                }
            } else {
                let kk = k - i1 - np + i2;
                assert(s[kk].spc == sp);
                assert(!starts_at_or_before(s[kk], spc, last));
            }
        }
        if ranges_cover(s, sp, o) && !(sp == spc && first <= o && o <= last) {
            let k = choose|k: int| 0 <= k < s.len() && #[trigger] s[k].spc == sp && s[k].first <= o && o <= s[k].last;
            if k < i1 {
                assert(t[k] == idx(k));
                assert(t[k].spc == sp);
            } else if k >= i2 {
                let kt = k - i2 + i1 + np;
                assert(t[kt] == idx(kt));
                assert(t[kt].spc == sp);
            } else if o < first {
                // Only the first absorbed range starts before `first`.
                assert(k == i1);
                assert(p[0].first == s[i1].first);
                assert(t[i1] == idx(i1));
                assert(t[i1].spc == sp);
            } else {
                assert(k == i2 - 1);
                let q = np - 1;
                assert(p[q].last == s[i2 - 1].last);
                assert(t[i1 + q] == idx(i1 + q));
                assert(t[i1 + q].spc == sp);
            }
        }
    }
    // Untouched ranges survive.
    assert forall|k: int| 0 <= k < s.len() && !range_touches(#[trigger] s[k], spc, first, last) implies t.contains(s[k]) by {
        if k < i1 {
            assert(t[k] == idx(k));
        } else {
            let kt = k - i2 + i1 + np;
            assert(t[kt] == idx(kt));
        }
    }
    // Every range is an old one or a piece of an old one outside `[first,last]`.
    assert forall|k: int| 0 <= k < t.len() implies s.contains(#[trigger] t[k]) || (t[k].spc == spc && (t[k].last
        < first || t[k].first > last) && exists|m: int| 0 <= m < s.len() && s[m].spc == spc
        && s[m].first <= t[k].first && t[k].last <= s[m].last) by {
        assert(t[k] == idx(k));
        if k < i1 {
            assert(s[k] == t[k]);
        } else if k < i1 + np {
            if p[k - i1].first == s[i1].first {
                assert(s[i1].spc == spc && s[i1].first <= t[k].first && t[k].last <= s[i1].last);
            } else {
                assert(s[i2 - 1].spc == spc && s[i2 - 1].first <= t[k].first && t[k].last <= s[i2 - 1].last);
            }
        } else {
            assert(s[k - i1 - np + i2] == t[k]);
        }
    }
}

impl RangeList {
    /// Eliminate `[first,last]` of space `spc`, narrowing or splitting the ranges it overlaps so
    /// the cover stays disjoint and non-adjacent.
    pub fn remove_range(&mut self, spc: SpaceId, first: u64, last: u64)
        requires
            first <= last,
        ensures
            ranges_wf(final(self)@),
            forall|sp: SpaceId, o: u64|
                ranges_cover(final(self)@, sp, o) <==> (ranges_cover(old(self)@, sp, o) && !(sp == spc
                    && first <= o && o <= last)),
            forall|k: int|
                0 <= k < old(self)@.len() && !range_touches(#[trigger] old(self)@[k], spc, first, last)
                    ==> final(self)@.contains(old(self)@[k]),
            forall|k: int|
                0 <= k < final(self)@.len() ==> old(self)@.contains(#[trigger] final(self)@[k]) || (
                final(self)@[k].spc == spc && (final(self)@[k].last < first || final(self)@[k].first > last)
                    && exists|m: int|
                    0 <= m < old(self)@.len() && old(self)@[m].spc == spc && old(self)@[m].first
                        <= final(self)@[k].first && final(self)@[k].last <= old(self)@[m].last),
            forall|o: u64|
                first <= o && o <= last ==> !#[trigger] in_range_spec(
                    final(self)@,
                    Address { space: spc, offset: o },
                    1,
                ),
    {
        proof {
            use_type_invariant(&*self);
        }
        if self.tree.len() == 0 {
            return;
        }
        let ghost s = self.tree@;
        let u1 = self.upper_bound(spc, first);
        let mut iter1: usize = u1;
        if iter1 != 0 {
            iter1 -= 1;
            if self.tree[iter1].spc.0 != spc.0 || self.tree[iter1].last < first {
                iter1 += 1;
            }
        }
        let iter2 = self.upper_bound(spc, last);
        proof {
            assert forall|k: int| 0 <= k < iter1 implies (#[trigger] s[k]).spc.0 < spc.0 || (s[k].spc == spc
                && s[k].last < first) by {
                assert(starts_at_or_before(s[k], spc, first));
                let p = u1 - 1;
                if k < p {
                    assert(range_before(s[k], s[p]));
                    assert(starts_at_or_before(s[p], spc, first));
                    assert(s[p].first <= s[p].last);
                }
            }
            if iter1 > iter2 {
                assert(starts_at_or_before(s[iter2 as int], spc, first));
            }
            assert forall|k: int| iter1 <= k < iter2 implies (#[trigger] s[k]).spc == spc && s[k].first <= last
                && s[k].last >= first by {
                assert(starts_at_or_before(s[k], spc, last));
                if k >= u1 {
                    assert(!starts_at_or_before(s[k], spc, first));
                    assert(s[k].first <= s[k].last);
                }
            }
            assert forall|k: int| iter1 < k < iter2 implies (#[trigger] s[k]).first > first by {
                assert(k >= u1);
                assert(!starts_at_or_before(s[k], spc, first));
            }
        }
        // Of the ranges being cut, only the first can reach below `first` and only the last can
        // reach above `last`, so at most those two pieces survive, already in order.
        let mut replacement: Vec<Range> = Vec::new();
        if iter1 < iter2 {
            let r1 = self.tree[iter1];
            if r1.first < first {
                replacement.push(Range { spc, first: r1.first, last: first - 1 });
            }
            let r2 = self.tree[iter2 - 1];
            if r2.last > last {
                replacement.push(Range { spc, first: last + 1, last: r2.last });
            }
        }
        proof {
            assert(replacement@ =~= outside_pieces(s, spc, first, last, iter1 as int, iter2 as int));
        }
        let mut v: Vec<Range> = Vec::new();
        let mut k: usize = 0;
        while k < iter1
            invariant
                k <= iter1 <= iter2 <= s.len(),
                s == self.tree@,
                v@ == s.subrange(0, k as int),
            decreases iter1 - k,
        {
            v.push(self.tree[k]);
            k += 1;
        }
        let mut q: usize = 0;
        while q < replacement.len()
            invariant
                q <= replacement@.len(),
                v@ == s.subrange(0, iter1 as int) + replacement@.subrange(0, q as int),
            decreases replacement@.len() - q,
        {
            v.push(replacement[q]);
            q += 1;
            proof {
                assert(replacement@.subrange(0, q as int) =~= replacement@.subrange(0, q - 1).push(replacement@[q - 1]));
            }
        }
        let mut k: usize = iter2;
        while k < self.tree.len()
            invariant
                iter1 <= iter2 <= k <= s.len(),
                s == self.tree@,
                v@ == s.subrange(0, iter1 as int) + replacement@ + s.subrange(iter2 as int, k as int),
            decreases s.len() - k,
        {
            v.push(self.tree[k]);
            k += 1;
            proof {
                assert(s.subrange(iter2 as int, k as int) =~= s.subrange(iter2 as int, k - 1).push(s[k - 1]));
            }
        }
        proof {
            assert(replacement@.subrange(0, replacement@.len() as int) =~= replacement@);
            lemma_remove_splice(s, spc, first, last, iter1 as int, iter2 as int);
            lemma_uncovered_not_in_range(v@, spc, first, last);
        }
        self.tree = v;
    }
}

} // verus!

verus! {

/// Offsets a well-formed list does not cover are not in range.
proof fn lemma_uncovered_not_in_range(v: Seq<Range>, spc: SpaceId, first: u64, last: u64)
    requires
        ranges_wf(v),
        forall|o: u64| first <= o && o <= last ==> !ranges_cover(v, spc, o),
    ensures
        forall|o: u64| first <= o && o <= last ==> !#[trigger] in_range_spec(v, Address { space: spc, offset: o }, 1),
{
    assert forall|o: u64| first <= o && o <= last implies !#[trigger] in_range_spec(
        v,
        Address { space: spc, offset: o },
        1,
    ) by {
        law_in_range_is_single_range_containment(v, Address { space: spc, offset: o }, 1);
        if in_range_spec(v, Address { space: spc, offset: o }, 1) {
            let k = choose|k: int| 0 <= k < v.len() && #[trigger] v[k].spc == spc && v[k].first <= o && o <= v[k].last;
            assert(ranges_cover(v, spc, o));
        }
    }
}

/// What a well-formed list covers determines the list: two sorted, disjoint, non-adjacent
/// lists covering the same offsets are the same list.
pub proof fn law_cover_determines_ranges(a: Seq<Range>, b: Seq<Range>)
    requires
        ranges_wf(a),
        ranges_wf(b),
        forall|sp: SpaceId, o: u64| ranges_cover(a, sp, o) == ranges_cover(b, sp, o),
    ensures
        a == b,
    decreases a.len() + b.len(),
{
    if a.len() == 0 || b.len() == 0 {
        if a.len() > 0 {
            assert(ranges_cover(a, a[0].spc, a[0].first));
        }
        if b.len() > 0 {
            assert(ranges_cover(b, b[0].spc, b[0].first));
        }
        assert(a =~= b);
        return;
    }
    let (x, y) = (a[0], b[0]);
    // The first ranges start at the same place.
    assert(ranges_cover(a, x.spc, x.first));
    assert(ranges_cover(b, y.spc, y.first));
    let kb = choose|k: int| 0 <= k < b.len() && #[trigger] b[k].spc == x.spc && b[k].first <= x.first && x.first <= b[k].last;
    let ka = choose|k: int| 0 <= k < a.len() && #[trigger] a[k].spc == y.spc && a[k].first <= y.first && y.first <= a[k].last;
    if kb > 0 {
        assert(range_before(b[0], b[kb]));
    }
    if ka > 0 {
        assert(range_before(a[0], a[ka]));
    }
    assert(x.spc == y.spc);
    assert(x.first == y.first);
    // And end at the same place.
    if x.last < y.last {
        assert(ranges_cover(b, y.spc, (x.last + 1) as u64));
        let k = choose|k: int| 0 <= k < a.len() && #[trigger] a[k].spc == y.spc && a[k].first <= (x.last + 1) as u64
            && (x.last + 1) as u64 <= a[k].last;
        if k > 0 {
            assert(range_before(a[0], a[k]));
        }
        assert(false);
    }
    if y.last < x.last {
        assert(ranges_cover(a, x.spc, (y.last + 1) as u64));
        let k = choose|k: int| 0 <= k < b.len() && #[trigger] b[k].spc == x.spc && b[k].first <= (y.last + 1) as u64
            && (y.last + 1) as u64 <= b[k].last;
        if k > 0 {
            assert(range_before(b[0], b[k]));
        }
        assert(false);
    }
    assert(x == y);
    let (ta, tb) = (a.drop_first(), b.drop_first());
    assert forall|i: int, j: int| 0 <= i < j < ta.len() implies range_before(#[trigger] ta[i], #[trigger] ta[j]) by {
        assert(range_before(a[i + 1], a[j + 1]));
    }
    assert forall|i: int, j: int| 0 <= i < j < tb.len() implies range_before(#[trigger] tb[i], #[trigger] tb[j]) by {
        assert(range_before(b[i + 1], b[j + 1]));
    }
    assert forall|i: int| 0 <= i < ta.len() implies #[trigger] ta[i].first <= ta[i].last by {
        assert(a[i + 1].first <= a[i + 1].last);
    }
    assert forall|i: int| 0 <= i < tb.len() implies #[trigger] tb[i].first <= tb[i].last by {
        assert(b[i + 1].first <= b[i + 1].last);
    }
    assert forall|sp: SpaceId, o: u64| ranges_cover(ta, sp, o) == ranges_cover(tb, sp, o) by {
        if ranges_cover(ta, sp, o) {
            let k = choose|k: int| 0 <= k < ta.len() && #[trigger] ta[k].spc == sp && ta[k].first <= o && o <= ta[k].last;
            assert(range_before(a[0], a[k + 1]));
            assert(a[k + 1].spc == sp);
            assert(ranges_cover(a, sp, o));
            let m = choose|m: int| 0 <= m < b.len() && #[trigger] b[m].spc == sp && b[m].first <= o && o <= b[m].last;
            if m == 0 {
                assert(false);
            }
            assert(tb[m - 1].spc == sp);
        }
        if ranges_cover(tb, sp, o) {
            let k = choose|k: int| 0 <= k < tb.len() && #[trigger] tb[k].spc == sp && tb[k].first <= o && o <= tb[k].last;
            assert(range_before(b[0], b[k + 1]));
            assert(b[k + 1].spc == sp);
            assert(ranges_cover(b, sp, o));
            let m = choose|m: int| 0 <= m < a.len() && #[trigger] a[m].spc == sp && a[m].first <= o && o <= a[m].last;
            if m == 0 {
                assert(false);
            }
            assert(ta[m - 1].spc == sp);
        }
    }
    law_cover_determines_ranges(ta, tb);
    assert(a =~= seq![x] + ta);
    assert(b =~= seq![y] + tb);
}

/// A range list answers `in_range` for a non-empty span that does not wrap around the
/// 64-bit offset space exactly when one single range contains the whole span.
pub proof fn law_in_range_is_single_range_containment(s: Seq<Range>, addr: Address, size: u32)
    requires
        ranges_wf(s),
        size >= 1,
        addr.offset + size - 1 <= u64::MAX,
    ensures
        in_range_spec(s, addr, size) <==> exists|i: int|
            0 <= i < s.len() && #[trigger] s[i].spc == addr.space && s[i].first <= addr.offset
                && addr.offset + size - 1 <= s[i].last,
{
    let end = addr.offset + size - 1;
    assert(span_end(addr.offset, size) == end);
    if exists|i: int|
        0 <= i < s.len() && #[trigger] s[i].spc == addr.space && s[i].first <= addr.offset && end <= s[i].last {
        let i = choose|i: int|
            0 <= i < s.len() && #[trigger] s[i].spc == addr.space && s[i].first <= addr.offset && end
                <= s[i].last;
        if i + 1 < s.len() {
            assert(range_before(s[i], s[i + 1]));
            assert(s[i].first <= s[i].last);
        }
        assert(s[i].spc == addr.space);
    }
}

} // verus!

verus! {

/// The heritage delay a freshly registered space gets: registers (and the constant, unique and
/// annotation spaces) are heritaged at pass 0, every other processor space (`ram`) and the stack
/// at pass 1.
pub open spec fn heritage_delay_spec(kind: SpaceKind, name: Seq<char>) -> i32 {
    match kind {
        SpaceKind::Constant | SpaceKind::Internal | SpaceKind::Special => 0,
        SpaceKind::Processor => if name == "register"@ { 0 } else { 1 },
        SpaceKind::Spacebase => 1,
    }
}

/// Two strings hold the same characters.
fn same_text(a: &str, b: &str) -> (r: bool)
    ensures
        r == (a@ == b@),
{
    let x: String = a.to_owned();
    let y: String = b.to_owned();
    x == y
}

fn heritage_delay(kind: SpaceKind, name: &str) -> (r: i32)
    ensures
        r == heritage_delay_spec(kind, name@),
{
    match kind {
        SpaceKind::Constant | SpaceKind::Internal | SpaceKind::Special => 0,
        SpaceKind::Processor => if same_text(name, "register") { 0 } else { 1 },
        SpaceKind::Spacebase => 1,
    }
}

/// A well-formed registry: each space's id is its index, names are unique, and ids fit.
pub open spec fn spaces_wf(s: Seq<Space>) -> bool {
    &&& s.len() < u32::MAX
    &&& forall|i: int| 0 <= i < s.len() ==> (#[trigger] s[i]).id.0 == i
    &&& forall|i: int, j: int| 0 <= i < j < s.len() ==> (#[trigger] s[i]).name@ != (#[trigger] s[j]).name@
}

/// The space registered under `name`, if any.
pub open spec fn space_named(s: Seq<Space>, name: Seq<char>) -> Option<SpaceId> {
    if exists|i: int| 0 <= i < s.len() && (#[trigger] s[i]).name@ == name {
        Some(SpaceId((choose|i: int| 0 <= i < s.len() && (#[trigger] s[i]).name@ == name) as u32))
    } else {
        None
    }
}

/// The registry of address spaces for one architecture.
#[derive(Debug)]
pub struct SpaceManager {
    spaces: Vec<Space>,
}

impl View for SpaceManager {
    type V = Seq<Space>;

    closed spec fn view(&self) -> Seq<Space> {
        self.spaces@
    }
}

/// In a well-formed registry a name identifies at most one space.
pub proof fn lemma_space_named(s: Seq<Space>, name: Seq<char>, i: int)
    requires
        spaces_wf(s),
        0 <= i < s.len(),
        s[i].name@ == name,
    ensures
        space_named(s, name) == Some(SpaceId(i as u32)),
{
    let j = choose|j: int| 0 <= j < s.len() && (#[trigger] s[j]).name@ == name;
    if j < i {
        assert(s[j].name@ != s[i].name@);
    } else if i < j {
        assert(s[i].name@ != s[j].name@);
    }
}

impl SpaceManager {
    pub open spec fn wf(&self) -> bool {
        spaces_wf(self@)
    }

    /// Number of registered spaces.
    pub fn num_spaces(&self) -> (r: usize)
        ensures
            r == self@.len(),
    {
        self.spaces.len()
    }

    pub fn get(&self, id: SpaceId) -> (r: &Space)
        requires
            id.0 < self@.len(),
        ensures
            *r == self@[id.0 as int],
    {
        &self.spaces[id.0 as usize]
    }

    /// The space registered under `name`.
    pub fn by_name(&self, name: &str) -> (r: Option<SpaceId>)
        requires
            self.wf(),
        ensures
            r == space_named(self@, name@),
            r matches Some(id) ==> id.0 < self@.len() && self@[id.0 as int].name@ == name@,
    {
        let key: String = name.to_owned();
        let mut i: usize = 0;
        while i < self.spaces.len()
            invariant
                i <= self.spaces@.len(),
                spaces_wf(self.spaces@),
                self.spaces@ == self@,
                key@ == name@,
                forall|k: int| 0 <= k < i ==> (#[trigger] self.spaces@[k]).name@ != name@,
            decreases self.spaces@.len() - i,
        {
            if self.spaces[i].name == key {
                proof {
                    lemma_space_named(self@, name@, i as int);
                }
                return Some(self.spaces[i].id);
            }
            i += 1;
        }
        None
    }

    /// The constant space (`const`), which every registry built by [`Self::standard`] has.
    pub fn constant(&self) -> (r: SpaceId)
        requires
            self.wf(),
            space_named(self@, "const"@) is Some,
        ensures
            Some(r) == space_named(self@, "const"@),
    {
        self.by_name("const").unwrap()
    }

    /// Whether values in space `id` are stored most-significant byte first.
    pub fn is_big_endian(&self, id: SpaceId) -> (r: bool)
        requires
            id.0 < self@.len(),
        ensures
            r == self@[id.0 as int].big_endian,
    {
        self.spaces[id.0 as usize].big_endian
    }

    /// Register a space, returning its id; a name already registered returns the existing id
    /// and changes nothing.
    pub fn add(&mut self, name: &str, kind: SpaceKind, addr_size: u32, wordsize: u32) -> (r: SpaceId)
        requires
            old(self).wf(),
            old(self)@.len() + 1 < u32::MAX,
        ensures
            final(self).wf(),
            match space_named(old(self)@, name@) {
                Some(id) => r == id && final(self)@ == old(self)@,
                None => {
                    &&& r.0 == old(self)@.len()
                    &&& final(self)@.len() == old(self)@.len() + 1
                    &&& final(self)@.subrange(0, old(self)@.len() as int) == old(self)@
                    &&& final(self)@[r.0 as int].id == r
                    &&& final(self)@[r.0 as int].name@ == name@
                    &&& final(self)@[r.0 as int].kind == kind
                    &&& final(self)@[r.0 as int].addr_size == addr_size
                    &&& final(self)@[r.0 as int].wordsize == wordsize
                    &&& final(self)@[r.0 as int].big_endian == false
                    &&& final(self)@[r.0 as int].delay == heritage_delay_spec(kind, name@)
                    &&& final(self)@[r.0 as int].deadcodedelay == heritage_delay_spec(kind, name@)
                    &&& final(self)@[r.0 as int].spacebase@ == Seq::<(Address, u32)>::empty()
                    &&& final(self)@[r.0 as int].contain is None
                },
            },
    {
        if let Some(id) = self.by_name(name) {
            return id;
        }
        let id = SpaceId(self.spaces.len() as u32);
        let delay = heritage_delay(kind, name);
        let sp = Space {
            id,
            name: name.to_owned(),
            kind,
            addr_size,
            big_endian: false,
            wordsize,
            delay,
            deadcodedelay: delay,
            spacebase: Vec::new(),
            contain: None,
        };
        self.spaces.push(sp);
        proof {
            assert(self.spaces@.subrange(0, old(self)@.len() as int) =~= old(self)@);
            assert forall|i: int, j: int| 0 <= i < j < self.spaces@.len() implies (#[trigger] self.spaces@[i]).name@
                != (#[trigger] self.spaces@[j]).name@ by {
                if j == old(self)@.len() {
                    assert(old(self)@[i].name@ != name@);
                }
            }
        }
        id
    }

    /// Install a delayed dead-code pass for a space.
    pub fn set_deadcode_delay(&mut self, space: SpaceId, delay: i32)
        requires
            space.0 < old(self)@.len(),
        ensures
            old(self).wf() ==> final(self).wf(),
            final(self)@ == old(self)@.update(
                space.0 as int,
                (Space { deadcodedelay: delay, ..old(self)@[space.0 as int] }),
            ),
    {
        self.spaces[space.0 as usize].deadcodedelay = delay;
    }

    /// Register a spacebase (base pointer) register `(reg, size)` for a virtual space.
    pub fn set_spacebase(&mut self, space: SpaceId, reg: Address, size: u32)
        requires
            space.0 < old(self)@.len(),
        ensures
            old(self).wf() ==> final(self).wf(),
            final(self)@.len() == old(self)@.len(),
            forall|i: int| 0 <= i < old(self)@.len() && i != space.0 ==> final(self)@[i] == old(self)@[i],
            final(self)@[space.0 as int].spacebase@ == old(self)@[space.0 as int].spacebase@.push((reg, size)),
            ({
                let (a, b) = (final(self)@[space.0 as int], old(self)@[space.0 as int]);
                a.id == b.id && a.name == b.name && a.kind == b.kind && a.addr_size == b.addr_size
                    && a.big_endian == b.big_endian && a.wordsize == b.wordsize && a.delay == b.delay
                    && a.deadcodedelay == b.deadcodedelay && a.contain == b.contain
            }),
    {
        self.spaces[space.0 as usize].spacebase.push((reg, size));
    }

    /// Record the physical space a virtual `Spacebase` space is a placeholder into.
    pub fn set_contain(&mut self, space: SpaceId, contain: SpaceId)
        requires
            space.0 < old(self)@.len(),
        ensures
            old(self).wf() ==> final(self).wf(),
            final(self)@ == old(self)@.update(
                space.0 as int,
                (Space { contain: Some(contain), ..old(self)@[space.0 as int] }),
            ),
    {
        self.spaces[space.0 as usize].contain = Some(contain);
    }

    /// Set every space's endianness from the processor spec.
    pub fn set_big_endian(&mut self, big: bool)
        ensures
            old(self).wf() ==> final(self).wf(),
            final(self)@.len() == old(self)@.len(),
            forall|i: int|
                0 <= i < old(self)@.len() ==> #[trigger] final(self)@[i] == (Space { big_endian: big, ..old(self)@[i] }),
    {
        let mut i: usize = 0;
        while i < self.spaces.len()
            invariant
                i <= self.spaces@.len() == old(self)@.len(),
                forall|k: int| 0 <= k < i ==> #[trigger] self.spaces@[k] == (Space { big_endian: big, ..old(self)@[k] }),
                forall|k: int| i <= k < self.spaces@.len() ==> #[trigger] self.spaces@[k] == old(self)@[k],
            decreases self.spaces@.len() - i,
        {
            self.spaces[i].big_endian = big;
            i += 1;
        }
    }
}

} // verus!

verus! {

/// `(loc, size)` is one of space `s`'s base registers.
pub open spec fn has_spacebase(s: Space, loc: Address, size: u32) -> bool {
    exists|k: int| 0 <= k < s.spacebase@.len() && #[trigger] s.spacebase@[k] == (loc, size)
}

/// The answer of `justified_contain`: the endian-aware offset of `(op2, sz2)` inside
/// `(addr, sz)`, or `None` when it is not properly contained.
pub open spec fn justified_contain_spec(big_endian: bool, addr: Address, sz: u32, op2: Address, sz2: u32, forceleft: bool) -> Option<u64> {
    if addr.space != op2.space || sz == 0 || sz2 == 0 || op2.offset < addr.offset {
        None
    } else if op2.offset + sz2 - 1 > addr.offset + sz - 1 {
        None
    } else if big_endian && !forceleft {
        Some(((addr.offset + sz - 1) - (op2.offset + sz2 - 1)) as u64)
    } else {
        Some((op2.offset - addr.offset) as u64)
    }
}

/// Where a sub-range sits in a range, measured from the least-significant end: on a
/// little-endian space (or with `forceleft`) that is the distance of the low ends, on a
/// big-endian space the distance of the high ends, so that on a big-endian space the two
/// readings and the sub-range's size add up to the range's size. A sub-range that is not
/// inside the range in the same space has no offset.
pub proof fn law_justified_contain_ends(big: bool, addr: Address, sz: u32, op2: Address, sz2: u32)
    ensures
        addr.space == op2.space && sz > 0 && sz2 > 0 && addr.offset <= op2.offset && op2.offset + sz2 <= addr.offset + sz
            ==> {
            let left = justified_contain_spec(big, addr, sz, op2, sz2, true);
            let right = justified_contain_spec(big, addr, sz, op2, sz2, false);
            &&& left == Some((op2.offset - addr.offset) as u64)
            &&& !big ==> right == left
            &&& big ==> (right matches Some(x) && x + op2.offset + sz2 == addr.offset + sz)
            &&& big ==> right.unwrap() + left.unwrap() + sz2 == sz
        },
        !(addr.space == op2.space && addr.offset <= op2.offset && op2.offset + sz2 <= addr.offset + sz) ==> forall|
            f: bool,
        | #[trigger] justified_contain_spec(big, addr, sz, op2, sz2, f) is None,
{
}

impl SpaceManager {
    /// The offset of the range `(op2, sz2)` inside the range `(addr, sz)`, measured from the
    /// least-significant end (so it flips on a big-endian space unless `forceleft`), or `None`
    /// when it is not properly contained.
    pub fn justified_contain(&self, addr: Address, sz: u32, op2: Address, sz2: u32, forceleft: bool) -> (r: Option<u64>)
        requires
            addr.space.0 < self@.len(),
            (addr.space == op2.space && sz != 0 && sz2 != 0 && op2.offset >= addr.offset) ==> (addr.offset
                + sz - 1 <= u64::MAX && op2.offset + sz2 - 1 <= u64::MAX),
        ensures
            r == justified_contain_spec(self@[addr.space.0 as int].big_endian, addr, sz, op2, sz2, forceleft),
    {
        if addr.space.0 != op2.space.0 || sz == 0 || sz2 == 0 {
            return None;
        }
        if op2.offset < addr.offset {
            return None;
        }
        let off1: u64 = addr.offset + (sz as u64 - 1);
        let off2: u64 = op2.offset + (sz2 as u64 - 1);
        if off2 > off1 {
            return None;
        }
        if self.is_big_endian(addr.space) && !forceleft {
            return Some(off1 - off2);
        }
        Some(op2.offset - addr.offset)
    }

    /// The address space whose spacebase register is exactly `(loc, size)`.
    pub fn space_by_spacebase(&self, loc: Address, size: u32) -> (r: Option<SpaceId>)
        requires
            self.wf(),
        ensures
            match r {
                Some(id) => id.0 < self@.len() && has_spacebase(self@[id.0 as int], loc, size)
                    && forall|i: int| 0 <= i < id.0 ==> !has_spacebase(#[trigger] self@[i], loc, size),
                None => forall|i: int| 0 <= i < self@.len() ==> !has_spacebase(#[trigger] self@[i], loc, size),
            },
    {
        let mut i: usize = 0;
        while i < self.spaces.len()
            invariant
                i <= self.spaces@.len(),
                self.spaces@ == self@,
                spaces_wf(self@),
                forall|k: int| 0 <= k < i ==> !has_spacebase(#[trigger] self@[k], loc, size),
            decreases self.spaces@.len() - i,
        {
            let sb = &self.spaces[i].spacebase;
            let mut j: usize = 0;
            while j < sb.len()
                invariant
                    j <= sb@.len(),
                    i < self.spaces@.len(),
                    self.spaces@ == self@,
                    spaces_wf(self@),
                    forall|k: int| 0 <= k < i ==> !has_spacebase(#[trigger] self@[k], loc, size),
                    sb@ == self@[i as int].spacebase@,
                    forall|k: int| 0 <= k < j ==> #[trigger] sb@[k] != (loc, size),
                decreases sb@.len() - j,
            {
                let (rl, rs) = sb[j];
                if rl == loc && rs == size {
                    return Some(self.spaces[i].id);
                }
                j += 1;
            }
            i += 1;
        }
        None
    }

    /// Set the `ram` space's address size (ignored when `size` is 0 or there is no `ram`).
    pub fn set_ram_addr_size(&mut self, size: u32)
        requires
            old(self).wf(),
        ensures
            final(self).wf(),
            match space_named(old(self)@, "ram"@) {
                Some(ram) => if size > 0 {
                    final(self)@ == old(self)@.update(ram.0 as int, (Space { addr_size: size, ..old(self)@[ram.0 as int] }))
                } else {
                    final(self)@ == old(self)@
                },
                None => final(self)@ == old(self)@,
            },
    {
        let Some(ram) = self.by_name("ram") else { return };
        if size > 0 {
            self.spaces[ram.0 as usize].addr_size = size;
        }
    }

    /// Replace the `stack` space's spacebase register with `(reg, size)` and make `size` its
    /// address size (a no-op when there is no `stack`).
    pub fn set_stack_pointer(&mut self, reg: Address, size: u32)
        requires
            old(self).wf(),
        ensures
            final(self).wf(),
            match space_named(old(self)@, "stack"@) {
                Some(stack) => {
                    &&& final(self)@.len() == old(self)@.len()
                    &&& forall|i: int| 0 <= i < old(self)@.len() && i != stack.0 ==> final(self)@[i] == old(self)@[i]
                    &&& final(self)@[stack.0 as int].spacebase@ == seq![(reg, size)]
                    &&& final(self)@[stack.0 as int].addr_size == size
                    &&& ({
                        let (a, b) = (final(self)@[stack.0 as int], old(self)@[stack.0 as int]);
                        a.id == b.id && a.name == b.name && a.kind == b.kind && a.big_endian == b.big_endian
                            && a.wordsize == b.wordsize && a.delay == b.delay && a.deadcodedelay
                            == b.deadcodedelay && a.contain == b.contain
                    })
                },
                None => final(self)@ == old(self)@,
            },
    {
        let Some(stack) = self.by_name("stack") else { return };
        self.spaces[stack.0 as usize].spacebase.clear();
        self.spaces[stack.0 as usize].addr_size = size;
        self.set_spacebase(stack, reg, size);
        proof {
            assert(self@[stack.0 as int].spacebase@ =~= seq![(reg, size)]);
        }
    }
}

} // verus!

verus! {

impl SpaceManager {
    /// The standard x86-64 space set: `const`, `ram`, `register`, `unique` and `stack`, with
    /// RSP `(register:0x20, 8)` as the stack's base register and `ram` as its container.
    pub fn standard() -> (m: SpaceManager)
        ensures
            m.wf(),
            m@.len() == 5,
            m@[0].name@ == "const"@ && m@[0].kind == SpaceKind::Constant && m@[0].addr_size == 8,
            m@[1].name@ == "ram"@ && m@[1].kind == SpaceKind::Processor && m@[1].addr_size == 8,
            m@[2].name@ == "register"@ && m@[2].kind == SpaceKind::Processor && m@[2].addr_size == 4,
            m@[3].name@ == "unique"@ && m@[3].kind == SpaceKind::Internal && m@[3].addr_size == 4,
            m@[4].name@ == "stack"@ && m@[4].kind == SpaceKind::Spacebase && m@[4].addr_size == 8,
            m@[0].delay == 0 && m@[1].delay == 1 && m@[2].delay == 0 && m@[3].delay == 0 && m@[4].delay == 1,
            forall|i: int| 0 <= i < 5 ==> {
                &&& #[trigger] m@[i].wordsize == 1
                &&& !m@[i].big_endian
                &&& m@[i].deadcodedelay == m@[i].delay
            },
            forall|i: int| 0 <= i < 4 ==> (#[trigger] m@[i]).spacebase@.len() == 0 && m@[i].contain is None,
            m@[4].spacebase@ == seq![(Address { space: SpaceId(2), offset: 0x20 }, 8u32)],
            m@[4].contain == Some(SpaceId(1)),
    {
        proof {
            reveal_strlit("const");
            reveal_strlit("ram");
            reveal_strlit("register");
            reveal_strlit("unique");
            reveal_strlit("stack");
        }
        let mut m = SpaceManager { spaces: Vec::new() };
        proof {
            assert("const"@[0] != "ram"@[0] && "const"@[0] != "register"@[0] && "const"@[0] != "unique"@[0]);
            assert("const"@[0] != "stack"@[0]);
            assert("ram"@[1] != "register"@[1] && "ram"@[0] != "unique"@[0] && "ram"@[0] != "stack"@[0]);
            assert("register"@[0] != "unique"@[0] && "register"@[0] != "stack"@[0]);
            assert("unique"@[0] != "stack"@[0]);
        }
        m.add("const", SpaceKind::Constant, 8, 1);
        assert(space_named(m@, "ram"@) is None);
        m.add("ram", SpaceKind::Processor, 8, 1);
        assert(space_named(m@, "register"@) is None);
        let register = m.add("register", SpaceKind::Processor, 4, 1);
        assert(space_named(m@, "unique"@) is None);
        m.add("unique", SpaceKind::Internal, 4, 1);
        assert(space_named(m@, "stack"@) is None);
        let stack = m.add("stack", SpaceKind::Spacebase, 8, 1);
        assert(m@.len() == 5);
        m.set_spacebase(stack, Address::new(register, 0x20), 8);
        proof {
            lemma_space_named(m@, "ram"@, 1);
        }
        let ram = m.by_name("ram").unwrap();
        m.set_contain(stack, ram);
        proof {
            assert(m@[4].spacebase@ =~= seq![(Address { space: SpaceId(2), offset: 0x20 }, 8u32)]);
        }
        m
    }
}

} // verus!
