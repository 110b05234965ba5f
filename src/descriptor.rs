//! The node descriptor: membership record of one group of eight children.
use vstd::prelude::*;

verus! {

/// Sentinel stored in `octuple_index` of a descriptor that points nowhere.
pub const NULL_INDEX: u16 = 0xFFFF;

/// Whether bit `t` of `mask` is set.
pub open spec fn mask_bit(mask: u8, t: u8) -> bool {
    (mask >> t) & 1u8 == 1u8
}

/// One node of a sparse octree.
///
/// Bit `i` of `valid_mask` is set when child octant `i` exists. At an inner
/// depth `octuple_index` names the octuple that holds the children; at the
/// final depth it holds the stored value itself.
#[derive(Clone, Copy)]
pub struct ChildDescriptor {
    pub octuple_index: u16,
    pub valid_mask: u8,
}

impl ChildDescriptor {
    /// Whether child `octant` is marked as existing.
    pub open spec fn has_child(self, octant: int) -> bool {
        0 <= octant < 8 && mask_bit(self.valid_mask, octant as u8)
    }

    /// No child exists and the index is the sentinel.
    pub open spec fn is_null(self) -> bool {
        self.valid_mask == 0 && self.octuple_index == NULL_INDEX
    }

    /// The 32-bit word uploaded for this descriptor: the index in bits 0 to 15,
    /// the mask in bits 16 to 23, zero above.
    pub open spec fn packed(self) -> int {
        self.valid_mask as int * 0x10000 + self.octuple_index as int
    }

    pub fn new_null() -> (r: ChildDescriptor)
        ensures
            r.is_null(),
    {
        ChildDescriptor { octuple_index: NULL_INDEX, valid_mask: 0 }
    }

    pub fn is_child_valid(&self, octant: u32) -> (r: bool)
        requires
            octant < 8,
        ensures
            r == self.has_child(octant as int),
    {
        let t = octant as u8;
        ((self.valid_mask >> t) & 1) == 1
    }

    pub fn is_no_child_valid(&self) -> (r: bool)
        ensures
            r == (self.valid_mask == 0),
            r == (forall|t: int| 0 <= t < 8 ==> !#[trigger] self.has_child(t)),
    {
        proof {
            lemma_mask_zero_iff_no_child(*self);
        }
        self.valid_mask == 0
    }

    pub fn set_child_valid(&mut self, octant: u32)
        requires
            octant < 8,
        ensures
            final(self).octuple_index == old(self).octuple_index,
            final(self).valid_mask == old(self).valid_mask | (1u8 << (octant as u8)),
            final(self).valid_mask != 0,
            forall|t: int| #[trigger]
                final(self).has_child(t) == (t == octant || old(self).has_child(t)),
    {
        let t = octant as u8;
        let m = self.valid_mask;
        self.valid_mask = m | (1u8 << t);
        proof {
            let m2 = self.valid_mask;
            assert(m2 != 0) by (bit_vector)
                requires
                    m2 == m | (1u8 << t),
                    t < 8,
            ;
            assert forall|u: int| #[trigger] self.has_child(u) == (u == octant || old(self).has_child(u)) by {
                if 0 <= u < 8 {
                    let uu = u as u8;
                    assert(mask_bit(m2, uu) == (uu == t || mask_bit(m, uu))) by (bit_vector)
                        requires
                            m2 == m | (1u8 << t),
                            t < 8,
                            uu < 8,
                    ;
                }
            }
        }
    }

    pub fn to_u32(&self) -> (r: u32)
        ensures
            r as int == self.packed(),
    {
        let m = self.valid_mask as u32;
        let o = self.octuple_index as u32;
        let r = (m << 16) | o;
        assert(r == m * 0x10000 + o) by (bit_vector)
            requires
                r == (m << 16) | o,
                m < 0x100,
                o < 0x10000,
        ;
        r
    }
}

/// A descriptor's mask is zero exactly when none of its eight children exists.
pub proof fn lemma_mask_zero_iff_no_child(d: ChildDescriptor)
    ensures
        (d.valid_mask == 0) == (forall|t: int| 0 <= t < 8 ==> !#[trigger] d.has_child(t)),
{
    let m = d.valid_mask;
    if m != 0 {
        assert(mask_bit(m, 0) || mask_bit(m, 1) || mask_bit(m, 2) || mask_bit(m, 3) || mask_bit(m, 4)
            || mask_bit(m, 5) || mask_bit(m, 6) || mask_bit(m, 7)) by (bit_vector)
            requires
                m != 0,
        ;
        assert(d.has_child(0) || d.has_child(1) || d.has_child(2) || d.has_child(3) || d.has_child(4)
            || d.has_child(5) || d.has_child(6) || d.has_child(7));
    } else {
        assert forall|t: int| 0 <= t < 8 implies !#[trigger] d.has_child(t) by {
            let tt = t as u8;
            assert(!mask_bit(m, tt)) by (bit_vector)
                requires
                    m == 0,
            ;
        }
    }
}

} // verus!
