use vstd::prelude::*;

verus! {

/// Value of bit `bit` (0 = least significant) of byte `b`.
pub open spec fn bit_of(b: u8, bit: u8) -> bool {
    (b >> bit) & 1u8 == 1u8
}

/// Number of bytes that hold `bits` bits.
pub open spec fn bytes_for(bits: nat) -> nat {
    if bits % 8 == 0 {
        bits / 8
    } else {
        bits / 8 + 1
    }
}

proof fn lemma_or_mask(b: u8, s: u8, t: u8)
    requires
        s < 8,
        t < 8,
    ensures
        bit_of(b | (1u8 << s), t) == (s == t || bit_of(b, t)),
{
    assert(((b | (1u8 << s)) >> t) & 1u8 == 1u8 <==> (s == t || (b >> t) & 1u8 == 1u8))
        by (bit_vector)
        requires
            s < 8,
            t < 8,
    ;
}

proof fn lemma_and_not_mask(b: u8, s: u8, t: u8)
    requires
        s < 8,
        t < 8,
    ensures
        bit_of(b & !(1u8 << s), t) == (s != t && bit_of(b, t)),
{
    assert(((b & !(1u8 << s)) >> t) & 1u8 == 1u8 <==> (s != t && (b >> t) & 1u8 == 1u8))
        by (bit_vector)
        requires
            s < 8,
            t < 8,
    ;
}

proof fn lemma_mask_test(b: u8, s: u8)
    requires
        s < 8,
    ensures
        (b & (1u8 << s) != 0) == bit_of(b, s),
{
    assert((b & (1u8 << s) != 0) <==> ((b >> s) & 1u8 == 1u8)) by (bit_vector)
        requires
            s < 8,
    ;
}

proof fn lemma_zero_byte(s: u8)
    requires
        s < 8,
    ensures
        !bit_of(0u8, s),
{
    assert((0u8 >> s) & 1u8 != 1u8) by (bit_vector);
}

proof fn lemma_same_position(j: int, i: int)
    requires
        0 <= j,
        0 <= i,
        j / 8 == i / 8,
    ensures
        (j % 8 == i % 8) <==> j == i,
{
}

/// A dense vector of bits, packed eight to a byte, least significant bit first.
#[derive(Debug)]
pub struct BitMap {
    map: Vec<u8>,
    bit_size: usize,
}

impl View for BitMap {
    type V = Seq<bool>;

    closed spec fn view(&self) -> Seq<bool> {
        Seq::new(self.bit_size as nat, |i: int| bit_of(self.map@[i / 8], (i % 8) as u8))
    }
}

impl BitMap {
    /// The map holds exactly as many bytes as its bits need.
    pub closed spec fn wf(&self) -> bool {
        self.map@.len() == bytes_for(self.bit_size as nat)
    }

    pub closed spec fn spec_bit_size(&self) -> nat {
        self.bit_size as nat
    }

    pub closed spec fn bytes(&self) -> Seq<u8> {
        self.map@
    }

    /// Bit `i` lives in byte `i / 8` at mask `1 << (i % 8)`.
    pub proof fn lemma_layout(&self)
        requires
            self.wf(),
        ensures
            self.bytes().len() == bytes_for(self@.len()),
            forall|i: int|
                0 <= i < self@.len() ==> #[trigger] self@[i] == bit_of(
                    self.bytes()[i / 8],
                    (i % 8) as u8,
                ),
    {
    }

    /// A map of `size` bits, all clear.
    pub fn new(size: usize) -> (r: BitMap)
        ensures
            r.wf(),
            r@.len() == size,
            r.bytes() == Seq::new(bytes_for(size as nat), |i: int| 0u8),
            forall|i: int| 0 <= i < size ==> !#[trigger] r@[i],
    {
        let mut bytes: usize = size / 8;
        let rem: usize = size % 8;
        if rem > 0 {
            bytes = bytes + 1;
        }
        let r = BitMap { map: vec![0u8; bytes], bit_size: size };
        assert forall|i: int| 0 <= i < size implies !#[trigger] r@[i] by {
            lemma_zero_byte((i % 8) as u8);
        }
        r
    }

    /// The packed bytes of the map.
    pub fn as_bytes(&self) -> (r: &Vec<u8>)
        ensures
            r@ == self.bytes(),
    {
        &self.map
    }

    /// Whether bit `idx` is set.
    pub fn is_set(&self, idx: usize) -> (r: bool)
        requires
            self.wf(),
            idx < self@.len(),
        ensures
            r == self@[idx as int],
            r == bit_of(self.bytes()[(idx / 8) as int], (idx % 8) as u8),
    {
        let (byte_idx, mask) = self.get_byte_index_and_mask(idx);
        let byte = self.map[byte_idx];
        proof {
            lemma_mask_test(byte, (idx % 8) as u8);
        }
        byte & mask != 0
    }

    /// Sets bit `idx`; every other bit keeps its value.
    pub fn set(&mut self, idx: usize)
        requires
            old(self).wf(),
            idx < old(self)@.len(),
        ensures
            final(self).wf(),
            final(self)@ == old(self)@.update(idx as int, true),
            final(self).bytes() == old(self).bytes().update(
                (idx / 8) as int,
                old(self).bytes()[(idx / 8) as int] | (1u8 << ((idx % 8) as u8)),
            ),
    {
        let (byte_idx, mask) = self.get_byte_index_and_mask(idx);
        let byte = self.map[byte_idx];
        let new_byte = byte | mask;
        self.map.set(byte_idx, new_byte);
        proof {
            let s = (idx % 8) as u8;
            assert forall|j: int| 0 <= j < self.bit_size implies #[trigger] self@[j] == old(
                self,
            )@.update(idx as int, true)[j] by {
                if j / 8 == byte_idx {
                    lemma_or_mask(byte, s, (j % 8) as u8);
                    lemma_same_position(j, idx as int);
                }
            }
            assert(self@ =~= old(self)@.update(idx as int, true));
        }
    }

    /// Clears bit `idx`; every other bit keeps its value.
    pub fn reset(&mut self, idx: usize)
        requires
            old(self).wf(),
            idx < old(self)@.len(),
        ensures
            final(self).wf(),
            final(self)@ == old(self)@.update(idx as int, false),
            final(self).bytes() == old(self).bytes().update(
                (idx / 8) as int,
                old(self).bytes()[(idx / 8) as int] & !(1u8 << ((idx % 8) as u8)),
            ),
    {
        let (byte_idx, mask) = self.get_byte_index_and_mask(idx);
        let byte = self.map[byte_idx];
        let new_byte = byte & !mask;
        self.map.set(byte_idx, new_byte);
        proof {
            let s = (idx % 8) as u8;
            assert forall|j: int| 0 <= j < self.bit_size implies #[trigger] self@[j] == old(
                self,
            )@.update(idx as int, false)[j] by {
                if j / 8 == byte_idx {
                    lemma_and_not_mask(byte, s, (j % 8) as u8);
                    lemma_same_position(j, idx as int);
                }
            }
            assert(self@ =~= old(self)@.update(idx as int, false));
        }
    }

    /// Number of bits in the map.
    pub fn bit_size(&self) -> (r: usize)
        ensures
            r == self@.len(),
    {
        self.bit_size
    }

    /// Number of bytes that back the map.
    pub fn byte_size(&self) -> (r: usize)
        requires
            self.wf(),
        ensures
            r == bytes_for(self@.len()),
    {
        self.map.len()
    }

    /// Byte that holds bit `idx`, and the mask of that bit within it.
    fn get_byte_index_and_mask(&self, idx: usize) -> (r: (usize, u8))
        requires
            self.wf(),
            idx < self.bit_size,
        ensures
            r.0 == idx / 8,
            r.0 < self.map@.len(),
            r.1 == 1u8 << ((idx % 8) as u8),
    {
        let bit_in_byte = (idx % 8) as u8;
        let mask: u8 = 1u8 << bit_in_byte;
        (idx / 8, mask)
    }
}

} // verus!
