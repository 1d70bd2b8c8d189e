//! A growable sequence of bits, written most significant bit first.
use vstd::prelude::*;

verus! {

/// The `n` low bits of `value`, most significant first.
pub open spec fn bits_of(value: u32, n: nat) -> Seq<bool> {
    Seq::new(n, |k: int| (value >> ((n - 1 - k) as u32)) & 1u32 == 1u32)
}

/// The bits of a byte sequence, eight per byte, most significant first.
pub open spec fn bytes_to_bits(bytes: Seq<u8>) -> Seq<bool>
    decreases bytes.len(),
{
    if bytes.len() == 0 {
        Seq::empty()
    } else {
        bytes_to_bits(bytes.drop_last()) + bits_of(bytes.last() as u32, 8)
    }
}

/// The byte whose bits, most significant first, are `bits[start..start + 8]`.
pub open spec fn byte_at(bits: Seq<bool>, start: int) -> u8 {
    (if bits[start] { 128int } else { 0int } + if bits[start + 1] { 64int } else { 0int }
        + if bits[start + 2] { 32int } else { 0int } + if bits[start + 3] { 16int } else { 0int }
        + if bits[start + 4] { 8int } else { 0int } + if bits[start + 5] { 4int } else { 0int }
        + if bits[start + 6] { 2int } else { 0int } + if bits[start + 7] { 1int } else { 0int }) as u8
}

/// The text form of a bit sequence: a space before every group of eight
/// bits, `X` for a set bit and `.` for a clear one.
pub open spec fn bits_text(bits: Seq<bool>) -> Seq<char>
    decreases bits.len(),
{
    if bits.len() == 0 {
        Seq::empty()
    } else {
        let prefix = bits_text(bits.drop_last());
        let spaced = if (bits.len() - 1) % 8 == 0 { prefix.push(' ') } else { prefix };
        spaced.push(if bits.last() { 'X' } else { '.' })
    }
}

/// A growable array of bits.
pub struct BitArray {
    bits: Vec<bool>,
}

impl View for BitArray {
    type V = Seq<bool>;

    closed spec fn view(&self) -> Seq<bool> {
        self.bits@
    }
}

impl BitArray {
    /// An empty bit array.
    pub fn new() -> (r: BitArray)
        ensures
            r@ == Seq::<bool>::empty(),
    {
        BitArray { bits: Vec::new() }
    }

    /// The number of bits held.
    pub fn get_size(&self) -> (r: usize)
        ensures
            r == self@.len(),
    {
        self.bits.len()
    }

    /// The number of bytes needed to hold the bits: the size divided by
    /// eight, rounded up.
    pub fn get_size_in_bytes(&self) -> (r: usize)
        ensures
            r == (self@.len() + 7) / 8,
    {
        let n = self.bits.len();
        n / 8 + if n % 8 == 0 { 0 } else { 1 }
    }

    /// The bit at position `i`.
    pub fn get(&self, i: usize) -> (r: bool)
        requires
            i < self@.len(),
        ensures
            r == self@[i as int],
    {
        self.bits[i]
    }

    /// Appends one bit.
    pub fn append_bit(&mut self, bit: bool)
        requires
            old(self)@.len() < usize::MAX,
        ensures
            final(self)@ == old(self)@.push(bit),
    {
        self.bits.push(bit);
    }

    /// Appends the `num_bits` low bits of `value`, most significant first.
    pub fn append_bits(&mut self, value: u32, num_bits: usize)
        requires
            num_bits <= 32,
            old(self)@.len() + num_bits <= usize::MAX,
        ensures
            final(self)@ == old(self)@ + bits_of(value, num_bits as nat),
    {
        let ghost start = self@;
        let mut k: usize = 0;
        while k < num_bits
            invariant
                num_bits <= 32,
                k <= num_bits,
                start.len() + num_bits <= usize::MAX,
                self@ == start + bits_of(value, num_bits as nat).take(k as int),
            decreases num_bits - k,
        {
            let shift: u32 = (num_bits - 1 - k) as u32;
            let bit = (value >> shift) & 1u32 == 1u32;
            self.bits.push(bit);
            k = k + 1;
            assert(bits_of(value, num_bits as nat).take(k as int) =~= bits_of(
                value,
                num_bits as nat,
            ).take((k - 1) as int).push(bit));
        }
        assert(bits_of(value, num_bits as nat).take(num_bits as int) =~= bits_of(
            value,
            num_bits as nat,
        ));
    }

    /// Appends all bits of `other`.
    pub fn append_bit_array(&mut self, other: &BitArray)
        requires
            old(self)@.len() + other@.len() <= usize::MAX,
        ensures
            final(self)@ == old(self)@ + other@,
    {
        let ghost start = self@;
        let n = other.bits.len();
        let mut k: usize = 0;
        while k < n
            invariant
                n == other@.len(),
                k <= n,
                start.len() + n <= usize::MAX,
                self@ == start + other@.take(k as int),
            decreases n - k,
        {
            self.bits.push(other.bits[k]);
            k = k + 1;
            assert(other@.take(k as int) =~= other@.take((k - 1) as int).push(other@[k - 1]));
        }
        assert(other@.take(n as int) =~= other@);
    }

    /// Exclusive-or of each bit with the bit of `other` at the same place.
    pub fn xor(&mut self, other: &BitArray)
        requires
            old(self)@.len() == other@.len(),
        ensures
            final(self)@.len() == old(self)@.len(),
            forall|i: int|
                0 <= i < old(self)@.len() ==> #[trigger] final(self)@[i] == (old(self)@[i]
                    != other@[i]),
    {
        let n = self.bits.len();
        let mut k: usize = 0;
        while k < n
            invariant
                n == self@.len(),
                n == other@.len(),
                k <= n,
                forall|i: int| 0 <= i < k ==> self@[i] == (old(self)@[i] != other@[i]),
                forall|i: int| k <= i < n ==> self@[i] == old(self)@[i],
            decreases n - k,
        {
            let b = self.bits[k] != other.bits[k];
            self.bits.set(k, b);
            k = k + 1;
        }
    }

    /// The `num_bytes` bytes whose bits start at `bit_offset`, each read
    /// most significant bit first.
    pub fn to_bytes(&self, bit_offset: usize, num_bytes: usize) -> (r: Vec<u8>)
        requires
            bit_offset + 8 * num_bytes <= self@.len(),
        ensures
            r@.len() == num_bytes,
            forall|i: int|
                0 <= i < num_bytes ==> #[trigger] r@[i] == byte_at(self@, bit_offset + 8 * i),
    {
        let mut out: Vec<u8> = Vec::new();
        let total = self.bits.len();
        let mut i: usize = 0;
        while i < num_bytes
            invariant
                total == self@.len(),
                bit_offset + 8 * num_bytes <= self@.len(),
                i <= num_bytes,
                out@.len() == i,
                forall|j: int|
                    0 <= j < i ==> #[trigger] out@[j] == byte_at(self@, bit_offset + 8 * j),
            decreases num_bytes - i,
        {
            let p = bit_offset + 8 * i;
            let mut the_byte: u8 = 0;
            if self.bits[p] { the_byte = the_byte + 128; }
            if self.bits[p + 1] { the_byte = the_byte + 64; }
            if self.bits[p + 2] { the_byte = the_byte + 32; }
            if self.bits[p + 3] { the_byte = the_byte + 16; }
            if self.bits[p + 4] { the_byte = the_byte + 8; }
            if self.bits[p + 5] { the_byte = the_byte + 4; }
            if self.bits[p + 6] { the_byte = the_byte + 2; }
            if self.bits[p + 7] { the_byte = the_byte + 1; }
            out.push(the_byte);
            i = i + 1;
        }
        out
    }

    /// The text form: a space before each group of eight bits, `X` for a
    /// set bit and `.` for a clear one.
    pub fn to_string(&self) -> (r: String)
        ensures
            r@ == bits_text(self@),
    {
        let mut out = String::new();
        let n = self.bits.len();
        let mut i: usize = 0;
        proof {
            reveal_strlit(" ");
            reveal_strlit("X");
            reveal_strlit(".");
            assert(self@.take(0) =~= Seq::<bool>::empty());
        }
        while i < n
            invariant
                n == self@.len(),
                i <= n,
                out@ == bits_text(self@.take(i as int)),
            decreases n - i,
        {
            proof {
                reveal_strlit(" ");
                reveal_strlit("X");
                reveal_strlit(".");
            }
            if i % 8 == 0 {
                out.append(" ");
            }
            if self.bits[i] {
                out.append("X");
            } else {
                out.append(".");
            }
            i = i + 1;
            assert(self@.take(i as int).drop_last() =~= self@.take((i - 1) as int));
        }
        assert(self@.take(n as int) =~= self@);
        out
    }
}

} // verus!
