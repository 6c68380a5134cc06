//! A sequence of bits stored densely in a `Vec<u8>`: eight bits per byte,
//! most significant bit first within each byte.
//!
//! The abstract value of a [`BitVec`] is its `Seq<bool>` view. Every
//! operation states its effect on that view; [`BitVec::bytes`] additionally
//! exposes the packed storage, which the frame protocol sends on the wire.

use vstd::prelude::*;

verus! {

use vstd::arithmetic::div_mod::lemma_fundamental_div_mod;

/// The bit at offset `j` of byte `b`, counting the most significant bit
/// as offset 0.
pub open spec fn bit_of(b: u8, j: int) -> bool {
    ((b >> ((7 - j) as u8)) & 1) == 1
}

/// The first `len` bits packed in `bytes`: bit `i` lives in byte `i / 8`
/// at offset `i % 8`.
pub open spec fn bits_of(bytes: Seq<u8>, len: nat) -> Seq<bool> {
    Seq::new(len, |i: int| bit_of(bytes[i / 8], i % 8))
}

/// `1u8` when position `p` of `bits` holds a set bit, `0u8` otherwise
/// (out-of-range positions count as clear).
pub open spec fn bit_weight(bits: Seq<bool>, p: int) -> u8 {
    if 0 <= p < bits.len() && bits[p] {
        1u8
    } else {
        0u8
    }
}

/// The byte that packs `bits[base..base + 8]`, most significant bit first;
/// missing trailing bits are packed as zero.
pub open spec fn byte_of(bits: Seq<bool>, base: int) -> u8 {
    (128 * bit_weight(bits, base) + 64 * bit_weight(bits, base + 1) + 32 * bit_weight(
        bits,
        base + 2,
    ) + 16 * bit_weight(bits, base + 3) + 8 * bit_weight(bits, base + 4) + 4 * bit_weight(
        bits,
        base + 5,
    ) + 2 * bit_weight(bits, base + 6) + bit_weight(bits, base + 7)) as u8
}

/// The canonical packed form of a bit sequence: `ceil(len / 8)` bytes, the
/// unused low bits of the last byte clear.
pub open spec fn packed_bytes(bits: Seq<bool>) -> Seq<u8> {
    Seq::new((bits.len() + 7) / 8, |bi: int| byte_of(bits, 8 * bi))
}

/// The one way a bit-vector access can fail: an index at or past the
/// logical bit length.
#[derive(Debug, PartialEq, Eq, Structural)]
pub enum BitVecError {
    IndexOutOfBounds,
}

/// An ordered sequence of bits packed eight to a byte, most significant
/// bit first.
#[derive(Debug)]
pub struct BitVec {
    data: Vec<u8>,
    len: usize,
}

impl View for BitVec {
    type V = Seq<bool>;

    closed spec fn view(&self) -> Seq<bool> {
        bits_of(self.data@, self.len as nat)
    }
}

impl BitVec {
    /// The packed storage behind the bits, in wire order.
    pub closed spec fn bytes(&self) -> Seq<u8> {
        self.data@
    }

    /// Every stored bit has a byte to live in.
    pub closed spec fn wf(&self) -> bool {
        self.len as nat <= 8 * self.data@.len()
    }

    /// The storage is exactly `ceil(len / 8)` bytes and every bit past the
    /// logical length is clear. All constructors that build a vector bit by
    /// bit keep this shape; [`BitVec::push`] relies on it.
    pub closed spec fn padded(&self) -> bool {
        &&& self.data@.len() == (self.len + 7) / 8
        &&& forall|i: int|
            self.len <= i < 8 * self.data@.len() ==> !bit_of(
                self.data@[i / 8],
                #[trigger] (i % 8),
            )
    }

    /// Creates an empty bit-vector.
    pub fn new() -> (r: Self)
        ensures
            r@ == Seq::<bool>::empty(),
            r.bytes() == Seq::<u8>::empty(),
            r.wf(),
            r.padded(),
    {
        let r = Self { data: Vec::new(), len: 0 };
        proof {
            assert(r@ =~= Seq::<bool>::empty());
            assert(r.bytes() =~= Seq::<u8>::empty());
        }
        r
    }

    /// Hands out the packed bytes, consuming the vector.
    pub fn into_inner(self) -> (r: Vec<u8>)
        ensures
            r@ == self.bytes(),
    {
        self.data
    }

    /// Reinterprets a byte buffer as a vector of its first `bit_length`
    /// bits.
    pub fn from_bytes(bytes: Vec<u8>, bit_length: usize) -> (r: Self)
        requires
            bit_length <= 8 * bytes@.len(),
        ensures
            r@ == bits_of(bytes@, bit_length as nat),
            r@.len() == bit_length,
            r.bytes() == bytes@,
            r.wf(),
    {
        Self { data: bytes, len: bit_length }
    }

    /// Allocates room for `bits` bits up front; the vector starts empty.
    pub fn with_capacity(bits: usize) -> (r: Self)
        requires
            bits <= usize::MAX - 7,
        ensures
            r@ == Seq::<bool>::empty(),
            r.bytes() == Seq::<u8>::empty(),
            r.wf(),
            r.padded(),
    {
        let byte_capacity = (bits + 7) / 8;
        let r = Self { data: Vec::with_capacity(byte_capacity), len: 0 };
        proof {
            assert(r@ =~= Seq::<bool>::empty());
            assert(r.bytes() =~= Seq::<u8>::empty());
        }
        r
    }

    /// Creates a vector of `bits` zero bits.
    pub fn zeros(bits: usize) -> (r: Self)
        requires
            bits <= usize::MAX - 7,
        ensures
            r@ == Seq::new(bits as nat, |i: int| false),
            r@.len() == bits,
            r.bytes().len() == (bits + 7) / 8,
            r.wf(),
            r.padded(),
    {
        let byte_capacity = (bits + 7) / 8;
        let data: Vec<u8> = vec![0u8; byte_capacity];
        let r = Self { data, len: bits };
        proof {
            assert(forall|bi: int| 0 <= bi < data@.len() ==> data@[bi] == 0u8);
            assert(bits as nat <= 8 * data@.len()) by {
                assert(8 * ((bits + 7) / 8) >= bits) by (nonlinear_arith);
            };
            assert(forall|j: int| 0 <= j < 8 ==> !bit_of(0u8, j)) by {
                lemma_bit_of_zero_byte();
            };
            assert(forall|i: int| 0 <= i < 8 * data@.len() ==> 0 <= #[trigger] (i % 8) < 8 && 0 <= i
                / 8 < data@.len()) by {
                assert forall|i: int| 0 <= i < 8 * data@.len() implies 0 <= #[trigger] (i % 8) < 8
                    && 0 <= i / 8 < data@.len() by {
                    assert(i / 8 < data@.len()) by (nonlinear_arith)
                        requires
                            0 <= i < 8 * data@.len(),
                    ;
                }
            };
            assert(r@ =~= Seq::new(bits as nat, |i: int| false));
        }
        r
    }

    /// Creates a vector of `bits` one bits.
    pub fn ones(bits: usize) -> (r: Self)
        requires
            bits <= usize::MAX - 7,
        ensures
            r@ == Seq::new(bits as nat, |i: int| true),
            r@.len() == bits,
            r.bytes().len() == (bits + 7) / 8,
            r.wf(),
    {
        let byte_capacity = (bits + 7) / 8;
        let data: Vec<u8> = vec![255u8; byte_capacity];
        let r = Self { data, len: bits };
        proof {
            assert(forall|bi: int| 0 <= bi < data@.len() ==> data@[bi] == 255u8);
            assert(bits as nat <= 8 * data@.len()) by {
                assert(8 * ((bits + 7) / 8) >= bits) by (nonlinear_arith);
            };
            assert(forall|j: int| 0 <= j < 8 ==> bit_of(255u8, j)) by {
                lemma_bit_of_full_byte();
            };
            assert(forall|i: int| 0 <= i < 8 * data@.len() ==> 0 <= #[trigger] (i % 8) < 8 && 0 <= i
                / 8 < data@.len()) by {
                assert forall|i: int| 0 <= i < 8 * data@.len() implies 0 <= #[trigger] (i % 8) < 8
                    && 0 <= i / 8 < data@.len() by {
                    assert(i / 8 < data@.len()) by (nonlinear_arith)
                        requires
                            0 <= i < 8 * data@.len(),
                    ;
                }
            };
            assert(r@ =~= Seq::new(bits as nat, |i: int| true));
        }
        r
    }

    /// The number of stored bits.
    pub fn len(&self) -> (r: usize)
        ensures
            r == self@.len(),
    {
        self.len
    }

    /// The number of storage bytes actually held.
    pub fn true_len(&self) -> (r: usize)
        ensures
            r == self.bytes().len(),
    {
        self.data.len()
    }

    /// The bit at `index`, or `None` when `index` is out of range.
    pub fn get(&self, index: usize) -> (r: Option<bool>)
        requires
            self.wf(),
        ensures
            r == if index < self@.len() {
                Some(self@[index as int])
            } else {
                None::<bool>
            },
    {
        if index >= self.len {
            return None;
        }
        let byte_index: usize = index / 8;
        let sh: u8 = (7 - (index % 8)) as u8;
        proof {
            assert(byte_index < self.data@.len()) by (nonlinear_arith)
                requires
                    index < self.len,
                    self.len as nat <= 8 * self.data@.len(),
                    byte_index == index / 8,
            ;
        }
        let b: u8 = self.data[byte_index];
        Some(((b >> sh) & 1) == 1)
    }

    /// Writes `value` at `index`, rejecting an out-of-range index.
    pub fn set(&mut self, index: usize, value: bool) -> (r: Result<(), BitVecError>)
        requires
            old(self).wf(),
        ensures
            index < old(self)@.len() ==> ({
                &&& r == Ok::<(), BitVecError>(())
                &&& final(self)@ == old(self)@.update(index as int, value)
                &&& final(self).bytes().len() == old(self).bytes().len()
                &&& final(self).wf()
                &&& old(self).padded() ==> final(self).padded()
            }),
            index >= old(self)@.len() ==> r == Err::<(), BitVecError>(BitVecError::IndexOutOfBounds)
                && *final(self) == *old(self),
    {
        if index >= self.len {
            return Err(BitVecError::IndexOutOfBounds);
        }
        let byte_index: usize = index / 8;
        let sh: u8 = (7 - (index % 8)) as u8;
        proof {
            assert(byte_index < self.data@.len()) by (nonlinear_arith)
                requires
                    index < self.len,
                    self.len as nat <= 8 * self.data@.len(),
                    byte_index == index / 8,
            ;
        }
        let old_b: u8 = self.data[byte_index];
        let new_b: u8 = if value {
            old_b | (1u8 << sh)
        } else {
            old_b & !(1u8 << sh)
        };
        self.data[byte_index] = new_b;
        proof {
            lemma_u8_write_bit(old_b, new_b, sh, value);
            self.lemma_one_byte_write(*old(self), byte_index as int, index as int, value);
        }
        Ok(())
    }

    /// Flips the bit at `index`, rejecting an out-of-range index.
    pub fn toggle(&mut self, index: usize) -> (r: Result<(), BitVecError>)
        requires
            old(self).wf(),
        ensures
            index < old(self)@.len() ==> ({
                &&& r == Ok::<(), BitVecError>(())
                &&& final(self)@ == old(self)@.update(index as int, !old(self)@[index as int])
                &&& final(self).bytes().len() == old(self).bytes().len()
                &&& final(self).wf()
                &&& old(self).padded() ==> final(self).padded()
            }),
            index >= old(self)@.len() ==> r == Err::<(), BitVecError>(BitVecError::IndexOutOfBounds)
                && *final(self) == *old(self),
    {
        if index >= self.len {
            return Err(BitVecError::IndexOutOfBounds);
        }
        let byte_index: usize = index / 8;
        let sh: u8 = (7 - (index % 8)) as u8;
        proof {
            assert(byte_index < self.data@.len()) by (nonlinear_arith)
                requires
                    index < self.len,
                    self.len as nat <= 8 * self.data@.len(),
                    byte_index == index / 8,
            ;
        }
        let old_b: u8 = self.data[byte_index];
        let new_b: u8 = old_b ^ (1u8 << sh);
        self.data[byte_index] = new_b;
        proof {
            let value = !old(self)@[index as int];
            assert(old(self)@[index as int] == bit_of(old_b, index as int % 8));
            lemma_u8_flip_bit(old_b, new_b, sh);
            assert(bit_of(new_b, index as int % 8) == value);
            self.lemma_one_byte_write(*old(self), byte_index as int, index as int, value);
        }
        Ok(())
    }

    /// After writing one byte so that only the bit at `index` may have
    /// changed, the view is the old view with `index` updated.
    proof fn lemma_one_byte_write(&self, prev: Self, byte_index: int, index: int, value: bool)
        requires
            prev.wf(),
            0 <= index < prev.len,
            byte_index == index / 8,
            self.len == prev.len,
            self.data@.len() == prev.data@.len(),
            self.data@ == prev.data@.update(byte_index, self.data@[byte_index]),
            bit_of(self.data@[byte_index], index % 8) == value,
            forall|j: int|
                0 <= j < 8 && j != index % 8 ==> #[trigger] bit_of(self.data@[byte_index], j)
                    == bit_of(prev.data@[byte_index], j),
        ensures
            self@ == prev@.update(index, value),
            self.wf(),
            prev.padded() ==> self.padded(),
    {
        assert forall|t: int| 0 <= t < 8 * self.data@.len() && t != index implies #[trigger] bit_of(
            self.data@[t / 8],
            t % 8,
        ) == bit_of(prev.data@[t / 8], t % 8) by {
            assert(0 <= t / 8 < self.data@.len() && 0 <= t % 8 < 8) by (nonlinear_arith)
                requires
                    0 <= t < 8 * self.data@.len(),
            ;
            if t / 8 == byte_index {
                lemma_fundamental_div_mod(t, 8);
                lemma_fundamental_div_mod(index, 8);
                assert(t % 8 != index % 8);
            } else {
                assert(self.data@[t / 8] == prev.data@[t / 8]);
            }
        }
        assert(0 <= index / 8 < self.data@.len() && 0 <= index % 8 < 8) by (nonlinear_arith)
            requires
                0 <= index < self.len,
                self.len as nat <= 8 * self.data@.len(),
        ;
        assert(self@ =~= prev@.update(index, value));
        if prev.padded() {
            assert forall|i: int|
                self.len <= i < 8 * self.data@.len() implies !bit_of(
                self.data@[i / 8],
                #[trigger] (i % 8),
            ) by {
                assert(i != index);
                assert(bit_of(self.data@[i / 8], i % 8) == bit_of(prev.data@[i / 8], i % 8));
            }
        }
    }

    /// Appends one bit, growing the storage by one byte for every eighth
    /// bit.
    pub fn push(&mut self, bit: bool)
        requires
            old(self).padded(),
            old(self)@.len() < usize::MAX,
        ensures
            final(self)@ == old(self)@.push(bit),
            final(self).wf(),
            final(self).padded(),
            final(self).bytes().len() == old(self).bytes().len() + (if old(self)@.len() % 8 == 0 {
                1int
            } else {
                0int
            }),
    {
        proof {
            self.lemma_padded_wf();
            assert(self.len % 8 == 0 ==> self.data@.len() == self.len / 8) by (nonlinear_arith)
                requires
                    self.data@.len() == (self.len + 7) / 8,
            ;
            assert(self.len % 8 != 0 ==> self.data@.len() == self.len / 8 + 1) by (nonlinear_arith)
                requires
                    self.data@.len() == (self.len + 7) / 8,
            ;
        }
        if self.len % 8 == 0 {
            self.data.push(0u8);
        }
        let byte_index: usize = self.len / 8;
        let sh: u8 = (7 - (self.len % 8)) as u8;
        let old_b: u8 = self.data[byte_index];
        if bit {
            self.data[byte_index] = old_b | (1u8 << sh);
        }
        self.len = self.len + 1;
        proof {
            let prev = *old(self);
            let n = prev.len as int;
            let new_b = self.data@[byte_index as int];
            lemma_fundamental_div_mod(n, 8);
            assert(self.data@.len() == byte_index + 1);
            assert(forall|bi: int|
                0 <= bi < byte_index ==> #[trigger] self.data@[bi] == prev.data@[bi]);
            // The pushed bit lands at offset n % 8 of the last byte; the
            // byte's other bits keep the value they had (zero for a fresh
            // byte).
            if bit {
                lemma_u8_write_bit(old_b, new_b, sh, true);
            } else {
                assert(new_b == old_b);
            }
            if prev.len % 8 == 0 {
                assert(old_b == 0u8);
                lemma_bit_of_zero_byte();
            } else {
                assert(byte_index < prev.data@.len());
                assert(old_b == prev.data@[byte_index as int]);
                assert(0 <= n < 8 * prev.data@.len()) by (nonlinear_arith)
                    requires
                        prev.data@.len() == n / 8 + 1,
                        n >= 0,
                ;
                assert(!bit_of(prev.data@[n / 8], n % 8));
            }
            assert(bit_of(new_b, n % 8) == bit);
            assert(forall|j: int|
                0 <= j < 8 && j != n % 8 ==> #[trigger] bit_of(new_b, j) == bit_of(old_b, j));
            assert(self@ =~= prev@.push(bit)) by {
                assert forall|i: int| 0 <= i < self.len implies self@[i] == prev@.push(bit)[i] by {
                    assert(0 <= i / 8 <= byte_index && 0 <= i % 8 < 8) by (nonlinear_arith)
                        requires
                            0 <= i <= n,
                            byte_index == n / 8,
                    ;
                    lemma_fundamental_div_mod(i, 8);
                    if i == n {
                        assert(i / 8 == byte_index && i % 8 == n % 8);
                    } else if i / 8 == byte_index {
                        assert(i % 8 != n % 8);
                        assert(prev.len % 8 != 0) by (nonlinear_arith)
                            requires
                                0 <= i < n,
                                i / 8 == n / 8,
                                i == 8 * (i / 8) + i % 8,
                                n == 8 * (n / 8) + n % 8,
                                0 <= i % 8 < 8,
                                0 <= n % 8 < 8,
                                prev.len == n,
                        ;
                        assert(bit_of(self.data@[i / 8], i % 8) == bit_of(
                            prev.data@[i / 8],
                            i % 8,
                        ));
                    } else {
                        assert(i / 8 < byte_index);
                        assert(self.data@[i / 8] == prev.data@[i / 8]);
                    }
                }
            }
            assert(self.data@.len() == (self.len + 7) / 8) by (nonlinear_arith)
                requires
                    prev.len % 8 == 0 ==> self.data@.len() == prev.len / 8 + 1,
                    prev.len % 8 != 0 ==> self.data@.len() == (prev.len + 7) / 8,
                    self.len == prev.len + 1,
            ;
            assert forall|i: int|
                self.len <= i < 8 * self.data@.len() implies !bit_of(
                self.data@[i / 8],
                #[trigger] (i % 8),
            ) by {
                assert(0 <= i / 8 <= byte_index && 0 <= i % 8 < 8) by (nonlinear_arith)
                    requires
                        0 <= i < 8 * self.data@.len(),
                        self.data@.len() == byte_index + 1,
                ;
                lemma_fundamental_div_mod(i, 8);
                assert(i / 8 == byte_index) by (nonlinear_arith)
                    requires
                        i > n,
                        byte_index == n / 8,
                        i / 8 <= byte_index,
                        i == 8 * (i / 8) + i % 8,
                        n == 8 * (n / 8) + n % 8,
                        0 <= n % 8 < 8,
                        0 <= i % 8 < 8,
                ;
                assert(i % 8 != n % 8);
                assert(bit_of(new_b, i % 8) == bit_of(old_b, i % 8));
                if prev.len % 8 != 0 {
                    assert(0 <= i < 8 * prev.data@.len());
                    assert(!bit_of(prev.data@[i / 8], i % 8));
                }
            }
            self.lemma_padded_wf();
        }
    }

    /// A padded vector is well formed.
    proof fn lemma_padded_wf(&self)
        requires
            self.padded(),
        ensures
            self.wf(),
    {
        assert(self.len as nat <= 8 * ((self.len + 7) / 8)) by (nonlinear_arith);
    }

    /// Reads every bit out, in order.
    pub fn to_vec(&self) -> (r: Vec<bool>)
        requires
            self.wf(),
        ensures
            r@ == self@,
    {
        let n = self.len();
        let mut r: Vec<bool> = Vec::with_capacity(n);
        let mut i: usize = 0;
        while i < n
            invariant
                self.wf(),
                n == self@.len(),
                i <= n,
                r@ == self@.take(i as int),
            decreases n - i,
        {
            let b = self.get(i).unwrap();
            r.push(b);
            i = i + 1;
            proof {
                assert(r@ =~= self@.take(i as int));
            }
        }
        proof {
            assert(self@.take(n as int) =~= self@);
        }
        r
    }

    /// Packs a vector of booleans, eight to a byte, most significant bit
    /// first.
    pub fn from_vec(vec: Vec<bool>) -> (r: Self)
        requires
            vec@.len() <= usize::MAX - 7,
        ensures
            r@ == vec@,
            r.bytes() == packed_bytes(vec@),
            r.bytes().len() == (vec@.len() + 7) / 8,
            r.wf(),
            r.padded(),
    {
        let n = vec.len();
        let mut bytes: Vec<u8> = Vec::with_capacity(n / 8);
        let mut i: usize = 0;
        while i < n
            invariant
                n == vec@.len(),
                n <= usize::MAX - 7,
                i % 8 == 0,
                i == 8 * bytes@.len(),
                i < n + 8,
                forall|bi: int| 0 <= bi < bytes@.len() ==> bytes@[bi] == byte_of(vec@, 8 * bi),
            decreases n + 8 - i,
        {
            let mut byte: u8 = 0;
            let mut j: usize = 0;
            proof {
                lemma_bit_of_zero_byte();
            }
            while j < 8 && i + j < n
                invariant
                    n == vec@.len(),
                    n <= usize::MAX - 7,
                    i + 8 <= usize::MAX,
                    j <= 8,
                    i < n,
                    forall|t: int|
                        0 <= t < j ==> #[trigger] bit_of(byte, t) == (i + t < n && vec@[i + t]),
                    forall|t: int| j <= t < 8 ==> !(#[trigger] bit_of(byte, t)),
                decreases 8 - j,
            {
                if vec[i + j] {
                    let sh: u8 = (7 - j) as u8;
                    let old_b = byte;
                    byte = byte | (1u8 << sh);
                    proof {
                        lemma_u8_write_bit(old_b, byte, sh, true);
                        assert forall|t: int| 0 <= t < 8 && t != j implies #[trigger] bit_of(
                            byte,
                            t,
                        ) == bit_of(old_b, t) by {}
                    }
                }
                j = j + 1;
            }
            proof {
                assert forall|t: int| 0 <= t < 8 implies #[trigger] bit_of(byte, t) == (i + t < n
                    && vec@[i + t]) by {
                    if j <= t {
                        assert(i + t >= n);
                    }
                }
                lemma_byte_of_bits(vec@, i as int);
                lemma_u8_eq(byte, byte_of(vec@, i as int));
            }
            bytes.push(byte);
            i = i + 8;
        }
        proof {
            assert(bytes@.len() == (n + 7) / 8) by (nonlinear_arith)
                requires
                    n <= 8 * bytes@.len() < n + 8,
            ;
        }
        let r = Self { data: bytes, len: n };
        proof {
            assert(r.bytes() =~= packed_bytes(vec@));
            assert forall|t: int| 0 <= t < 8 * r.data@.len() implies #[trigger] bit_of(
                r.data@[t / 8],
                t % 8,
            ) == (t < n && vec@[t]) by {
                assert(0 <= t / 8 < r.data@.len() && 0 <= t % 8 < 8) by (nonlinear_arith)
                    requires
                        0 <= t < 8 * r.data@.len(),
                ;
                lemma_byte_of_bits(vec@, 8 * (t / 8));
                lemma_fundamental_div_mod(t, 8);
            }
            assert(n as nat <= 8 * r.data@.len()) by (nonlinear_arith)
                requires
                    r.data@.len() == (n + 7) / 8,
            ;
            assert(r@ =~= vec@);
        }
        r
    }
}

impl Clone for BitVec {
    /// A clone has the same bits and the same packed bytes.
    fn clone(&self) -> (r: Self)
        ensures
            r@ == self@,
            r.bytes() == self.bytes(),
            r.wf() == self.wf(),
            r.padded() == self.padded(),
    {
        let data = self.data.clone();
        proof {
            assert(data@ =~= self.data@);
        }
        Self { data, len: self.len }
    }
}

/// A padded vector's storage is exactly the canonical packing of its bits.
pub proof fn lemma_padded_packed(v: &BitVec)
    requires
        v.padded(),
    ensures
        v.bytes() == packed_bytes(v@),
{
    v.lemma_padded_wf();
    let bytes = v.bytes();
    let bits = v@;
    assert(bytes.len() == (bits.len() + 7) / 8);
    assert forall|bi: int| 0 <= bi < bytes.len() implies bytes[bi] == byte_of(bits, 8 * bi) by {
        lemma_byte_of_bits(bits, 8 * bi);
        assert forall|j: int| 0 <= j < 8 implies #[trigger] bit_of(bytes[bi], j) == bit_of(
            byte_of(bits, 8 * bi),
            j,
        ) by {
            let t = 8 * bi + j;
            assert(t / 8 == bi && t % 8 == j) by (nonlinear_arith)
                requires
                    0 <= j < 8,
                    t == 8 * bi + j,
            ;
            assert(0 <= t < 8 * bytes.len()) by (nonlinear_arith)
                requires
                    0 <= bi < bytes.len(),
                    0 <= j < 8,
                    t == 8 * bi + j,
            ;
            if t < bits.len() {
                assert(bits[t] == bit_of(bytes[bi], j));
            } else {
            }
        }
        lemma_u8_eq(bytes[bi], byte_of(bits, 8 * bi));
    }
    assert(bytes =~= packed_bytes(bits));
}

/// Unpacking the canonical packing gives the bits back.
pub proof fn lemma_bits_of_packed(bits: Seq<bool>)
    ensures
        bits_of(packed_bytes(bits), bits.len()) == bits,
{
    assert forall|i: int| 0 <= i < bits.len() implies bits_of(packed_bytes(bits), bits.len())[i]
        == bits[i] by {
        assert(0 <= i / 8 < (bits.len() + 7) / 8 && 0 <= i % 8 < 8) by (nonlinear_arith)
            requires
                0 <= i < bits.len(),
        ;
        lemma_byte_of_bits(bits, 8 * (i / 8));
        lemma_fundamental_div_mod(i, 8);
    }
    assert(bits_of(packed_bytes(bits), bits.len()) =~= bits);
}

/// Reads each packed bit back out of `byte_of`.
pub proof fn lemma_byte_of_bits(bits: Seq<bool>, base: int)
    ensures
        forall|j: int|
            0 <= j < 8 ==> #[trigger] bit_of(byte_of(bits, base), j) == (0 <= base + j < bits.len()
                && bits[base + j]),
{
    let x = byte_of(bits, base);
    let c0 = bit_weight(bits, base);
    let c1 = bit_weight(bits, base + 1);
    let c2 = bit_weight(bits, base + 2);
    let c3 = bit_weight(bits, base + 3);
    let c4 = bit_weight(bits, base + 4);
    let c5 = bit_weight(bits, base + 5);
    let c6 = bit_weight(bits, base + 6);
    let c7 = bit_weight(bits, base + 7);
    assert((bit_of(x, 0) == (c0 == 1)) && (bit_of(x, 1) == (c1 == 1)) && (bit_of(x, 2) == (c2 == 1))
        && (bit_of(x, 3) == (c3 == 1)) && (bit_of(x, 4) == (c4 == 1)) && (bit_of(x, 5) == (c5 == 1))
        && (bit_of(x, 6) == (c6 == 1)) && (bit_of(x, 7) == (c7 == 1))) by (bit_vector)
        requires
            c0 <= 1 && c1 <= 1 && c2 <= 1 && c3 <= 1 && c4 <= 1 && c5 <= 1 && c6 <= 1 && c7 <= 1,
            x == (128 * c0 + 64 * c1 + 32 * c2 + 16 * c3 + 8 * c4 + 4 * c5 + 2 * c6 + c7) as u8,
    ;
    assert forall|j: int| 0 <= j < 8 implies #[trigger] bit_of(byte_of(bits, base), j) == (0 <= base
        + j < bits.len() && bits[base + j]) by {
        if j == 0 {
        } else if j == 1 {
        } else if j == 2 {
        } else if j == 3 {
        } else if j == 4 {
        } else if j == 5 {
        } else if j == 6 {
        } else {
            assert(j == 7);
        }
    }
}

/// Two bytes that agree on all eight bits are equal.
proof fn lemma_u8_eq(x: u8, y: u8)
    requires
        forall|j: int| 0 <= j < 8 ==> #[trigger] bit_of(x, j) == bit_of(y, j),
    ensures
        x == y,
{
    assert(bit_of(x, 0) == bit_of(y, 0) && bit_of(x, 1) == bit_of(y, 1) && bit_of(x, 2) == bit_of(
        y,
        2,
    ) && bit_of(x, 3) == bit_of(y, 3) && bit_of(x, 4) == bit_of(y, 4) && bit_of(x, 5) == bit_of(
        y,
        5,
    ) && bit_of(x, 6) == bit_of(y, 6) && bit_of(x, 7) == bit_of(y, 7));
    assert(x == y) by (bit_vector)
        requires
            (bit_of(x, 0) == bit_of(y, 0)) && (bit_of(x, 1) == bit_of(y, 1)) && (bit_of(x, 2)
                == bit_of(y, 2)) && (bit_of(x, 3) == bit_of(y, 3)) && (bit_of(x, 4) == bit_of(y, 4))
                && (bit_of(x, 5) == bit_of(y, 5)) && (bit_of(x, 6) == bit_of(y, 6)) && (bit_of(x, 7)
                == bit_of(y, 7)),
    ;
}

/// Writing bit `sh` of a byte by `|` or `& !` sets exactly that bit.
proof fn lemma_u8_write_bit(old_b: u8, new_b: u8, sh: u8, value: bool)
    requires
        sh < 8,
        value ==> new_b == old_b | (1u8 << sh),
        !value ==> new_b == old_b & !(1u8 << sh),
    ensures
        bit_of(new_b, 7 - sh) == value,
        forall|j: int| 0 <= j < 8 && j != 7 - sh ==> #[trigger] bit_of(new_b, j) == bit_of(old_b, j),
{
    assert(bit_of(old_b | (1u8 << sh), 7 - sh)) by (bit_vector)
        requires
            sh < 8,
    ;
    assert(!bit_of(old_b & !(1u8 << sh), 7 - sh)) by (bit_vector)
        requires
            sh < 8,
    ;
    assert forall|j: int| 0 <= j < 8 && j != 7 - sh implies #[trigger] bit_of(new_b, j) == bit_of(
        old_b,
        j,
    ) by {
        let t: u8 = (7 - j) as u8;
        assert(t != sh);
        assert(bit_of(old_b | (1u8 << sh), 7 - t) == bit_of(old_b, 7 - t) && bit_of(
            old_b & !(1u8 << sh),
            7 - t,
        ) == bit_of(old_b, 7 - t)) by (bit_vector)
            requires
                sh < 8,
                t < 8,
                t != sh,
        ;
        assert(j == 7 - t);
    }
}

/// Flipping bit `sh` of a byte by `^` inverts exactly that bit.
proof fn lemma_u8_flip_bit(old_b: u8, new_b: u8, sh: u8)
    requires
        sh < 8,
        new_b == old_b ^ (1u8 << sh),
    ensures
        bit_of(new_b, 7 - sh) == !bit_of(old_b, 7 - sh),
        forall|j: int| 0 <= j < 8 && j != 7 - sh ==> #[trigger] bit_of(new_b, j) == bit_of(old_b, j),
{
    assert(bit_of(old_b ^ (1u8 << sh), 7 - sh) == !bit_of(old_b, 7 - sh)) by (bit_vector)
        requires
            sh < 8,
    ;
    assert forall|j: int| 0 <= j < 8 && j != 7 - sh implies #[trigger] bit_of(new_b, j) == bit_of(
        old_b,
        j,
    ) by {
        let t: u8 = (7 - j) as u8;
        assert(t != sh);
        assert(bit_of(old_b ^ (1u8 << sh), 7 - t) == bit_of(old_b, 7 - t)) by (bit_vector)
            requires
                sh < 8,
                t < 8,
                t != sh,
        ;
        assert(j == 7 - t);
    }
}

/// No bit of a zero byte is set.
proof fn lemma_bit_of_zero_byte()
    ensures
        forall|j: int| 0 <= j < 8 ==> !bit_of(0u8, j),
{
    assert forall|j: int| 0 <= j < 8 implies !bit_of(0u8, j) by {
        let sh: u8 = (7 - j) as u8;
        assert(((0u8 >> sh) & 1) != 1) by (bit_vector);
    }
}

/// Every bit of an all-ones byte is set.
proof fn lemma_bit_of_full_byte()
    ensures
        forall|j: int| 0 <= j < 8 ==> bit_of(255u8, j),
{
    assert forall|j: int| 0 <= j < 8 implies bit_of(255u8, j) by {
        let sh: u8 = (7 - j) as u8;
        assert(sh < 8);
        assert(((255u8 >> sh) & 1) == 1) by (bit_vector)
            requires
                sh < 8,
        ;
    }
}

} // verus!
