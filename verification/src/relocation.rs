//! Relocation entries: where and how a value is patched into stencil code.
use vstd::prelude::*;

verus! {

/// How a relocation is written in place.
#[derive(Copy, Clone, PartialEq, Eq, Structural, Debug)]
pub enum RelocationEncoding {
    /// Marks the end of a relocation list (all-zero entry).
    Invalid,
    /// Plain value.
    Generic,
    /// Sign extended.
    X86Signed,
    /// Upper limit.
    Unknown,
}

impl RelocationEncoding {
    /// The field value that decodes to `bits`.
    pub open spec fn spec_from_bits(bits: u8) -> RelocationEncoding {
        if bits == 1 {
            RelocationEncoding::Generic
        } else if bits == 2 {
            RelocationEncoding::X86Signed
        } else {
            RelocationEncoding::Invalid
        }
    }

    pub open spec fn spec_into_bits(self) -> u8 {
        match self {
            RelocationEncoding::Invalid => 0,
            RelocationEncoding::Generic => 1,
            RelocationEncoding::X86Signed => 2,
            RelocationEncoding::Unknown => 3,
        }
    }

    /// Decodes the 7-bit field; anything at or past `Unknown` reads as `Invalid`.
    pub fn from_bits(bits: u8) -> (r: Self)
        ensures
            r == Self::spec_from_bits(bits),
    {
        if bits == 1 {
            RelocationEncoding::Generic
        } else if bits == 2 {
            RelocationEncoding::X86Signed
        } else {
            RelocationEncoding::Invalid
        }
    }

    pub fn into_bits(self) -> (r: u8)
        ensures
            r == self.spec_into_bits(),
    {
        match self {
            RelocationEncoding::Invalid => 0,
            RelocationEncoding::Generic => 1,
            RelocationEncoding::X86Signed => 2,
            RelocationEncoding::Unknown => 3,
        }
    }
}

} // verus!

verus! {

/// What a relocation is for.
#[derive(Copy, Clone, PartialEq, Eq, Structural, Debug)]
pub enum PatchKind {
    Hole,
    Stack,
    Target,
    Runtime,
    Unknown,
}

impl PatchKind {
    pub open spec fn spec_from_bits(bits: u8) -> PatchKind {
        if bits == 0 {
            PatchKind::Hole
        } else if bits == 1 {
            PatchKind::Stack
        } else if bits == 2 {
            PatchKind::Target
        } else if bits == 3 {
            PatchKind::Runtime
        } else {
            PatchKind::Unknown
        }
    }

    pub open spec fn spec_into_bits(self) -> u8 {
        match self {
            PatchKind::Hole => 0,
            PatchKind::Stack => 1,
            PatchKind::Target => 2,
            PatchKind::Runtime => 3,
            PatchKind::Unknown => 4,
        }
    }

    /// Decodes the 4-bit field; anything at or past `Unknown` reads as `Unknown`.
    pub fn from_bits(bits: u8) -> (r: Self)
        ensures
            r == Self::spec_from_bits(bits),
    {
        if bits == 0 {
            PatchKind::Hole
        } else if bits == 1 {
            PatchKind::Stack
        } else if bits == 2 {
            PatchKind::Target
        } else if bits == 3 {
            PatchKind::Runtime
        } else {
            PatchKind::Unknown
        }
    }

    pub fn into_bits(self) -> (r: u8)
        ensures
            r == self.spec_into_bits(),
    {
        match self {
            PatchKind::Hole => 0,
            PatchKind::Stack => 1,
            PatchKind::Target => 2,
            PatchKind::Runtime => 3,
            PatchKind::Unknown => 4,
        }
    }
}

/// The value a relocation asks for, with its index.
#[derive(Copy, Clone, PartialEq, Eq, Structural, Debug)]
pub enum PatchInfo {
    Hole(u16),
    Stack(u16),
    Target(u16),
    Runtime(u16),
}

// Bit layout of a relocation entry, least significant bits first:
//   offset 0..16, encoding 16..23, relative 23, size 24..32,
//   addend 32..44 (signed), patch kind 44..48, patch id 48..64.
pub open spec fn offset_field(b: u64) -> u16 {
    (b & 0xffff) as u16
}

pub open spec fn encoding_field(b: u64) -> u8 {
    ((b >> 16u64) & 0x7f) as u8
}

pub open spec fn relative_field(b: u64) -> bool {
    (b >> 23u64) & 1 == 1
}

pub open spec fn size_field(b: u64) -> u8 {
    ((b >> 24u64) & 0xff) as u8
}

pub open spec fn addend_raw_field(b: u64) -> u16 {
    ((b >> 32u64) & 0xfff) as u16
}

/// The 12-bit addend, sign-extended.
pub open spec fn addend_field(b: u64) -> i16 {
    let raw = addend_raw_field(b);
    if raw >= 0x800 {
        (raw - 0x1000) as i16
    } else {
        raw as i16
    }
}

pub open spec fn kind_field(b: u64) -> u8 {
    ((b >> 44u64) & 0xf) as u8
}

pub open spec fn patch_id_field(b: u64) -> u16 {
    (b >> 48u64) as u16
}

/// The seven fields of a relocation entry, as read from its bits.
#[verifier::ext_equal]
pub struct RelocationFields {
    pub offset: u16,
    pub encoding: u8,
    pub relative: bool,
    pub size: u8,
    pub addend: u16,
    pub kind: u8,
    pub patch_id: u16,
}

pub open spec fn fields(b: u64) -> RelocationFields {
    RelocationFields {
        offset: offset_field(b),
        encoding: encoding_field(b),
        relative: relative_field(b),
        size: size_field(b),
        addend: addend_raw_field(b),
        kind: kind_field(b),
        patch_id: patch_id_field(b),
    }
}

/// The seven fields cover all 64 bits: two entries with the same fields are
/// the same entry.
pub proof fn lemma_fields_determine_bits(a: u64, b: u64)
    requires
        fields(a) == fields(b),
    ensures
        a == b,
{
    assert(offset_field(a) == offset_field(b));
    assert(encoding_field(a) == encoding_field(b));
    assert(relative_field(a) == relative_field(b));
    assert(size_field(a) == size_field(b));
    assert(addend_raw_field(a) == addend_raw_field(b));
    assert(kind_field(a) == kind_field(b));
    assert(patch_id_field(a) == patch_id_field(b));
    assert(a == b) by (bit_vector)
        requires
            (a & 0xffff) as u16 == (b & 0xffff) as u16,
            ((a >> 16u64) & 0x7f) as u8 == ((b >> 16u64) & 0x7f) as u8,
            ((a >> 23u64) & 1 == 1) == ((b >> 23u64) & 1 == 1),
            ((a >> 24u64) & 0xff) as u8 == ((b >> 24u64) & 0xff) as u8,
            ((a >> 32u64) & 0xfff) as u16 == ((b >> 32u64) & 0xfff) as u16,
            ((a >> 44u64) & 0xf) as u8 == ((b >> 44u64) & 0xf) as u8,
            (a >> 48u64) as u16 == (b >> 48u64) as u16,
    ;
}

/// A relocation entry packed into 64 bits.
///
/// It roughly follows the relocations found in object files, with some
/// simplifications: a 16-bit offset into the stencil, an encoding, whether it
/// is relative, its size in bits, a 12-bit signed addend, and what is patched
/// in (kind and index).
#[derive(Copy, Clone, PartialEq, Eq, Structural, Hash, Debug)]
pub struct Relocation {
    bits: u64,
}

impl View for Relocation {
    type V = u64;

    closed spec fn view(&self) -> u64 {
        self.bits
    }
}

impl Relocation {
    /// The all-zero entry: an `Invalid` relocation that ends a list.
    pub fn new() -> (r: Self)
        ensures
            r@ == 0,
    {
        Relocation { bits: 0 }
    }

    pub fn from_bits(bits: u64) -> (r: Self)
        ensures
            r@ == bits,
    {
        Relocation { bits }
    }

    pub fn into_bits(&self) -> (r: u64)
        ensures
            r == self@,
    {
        self.bits
    }


    /// Writes `v` into the bits selected by `mask << shift`, leaving the rest.
    fn put(&mut self, shift: u64, mask: u64, v: u64)
        requires
            shift < 64,
        ensures
            final(self)@ == (old(self)@ & !(mask << shift)) | ((v & mask) << shift),
    {
        self.bits = (self.bits & !(mask << shift)) | ((v & mask) << shift);
    }

    /// Sets the offset field.
    pub fn set_offset(&mut self, v: u16)
        ensures
            fields(final(self)@) == (RelocationFields { offset: v, ..fields(old(self)@) }),
    {
        let ghost b = self.bits;
        let x: u64 = v as u64;
        self.put(0, 0xffff, x);
        let ghost n = self.bits;
        assert({
            &&& (n & 0xffff) as u16 == x as u16
            &&& ((n >> 16u64) & 0x7f) as u8 == ((b >> 16u64) & 0x7f) as u8
            &&& ((n >> 23u64) & 1 == 1) == ((b >> 23u64) & 1 == 1)
            &&& ((n >> 24u64) & 0xff) as u8 == ((b >> 24u64) & 0xff) as u8
            &&& ((n >> 32u64) & 0xfff) as u16 == ((b >> 32u64) & 0xfff) as u16
            &&& ((n >> 44u64) & 0xf) as u8 == ((b >> 44u64) & 0xf) as u8
            &&& (n >> 48u64) as u16 == (b >> 48u64) as u16
        }) by (bit_vector)
            requires
                n == (b & !(0xffffu64 << 0u64)) | ((x & 0xffff) << 0u64),
                x < 0x10000,
        ;
    }

    /// Sets the encoding field.
    pub fn set_encoding(&mut self, v: RelocationEncoding)
        ensures
            fields(final(self)@) == (RelocationFields { encoding: v.spec_into_bits(), ..fields(old(self)@) }),
    {
        let ghost b = self.bits;
        let x: u64 = v.into_bits() as u64;
        self.put(16, 0x7f, x);
        let ghost n = self.bits;
        assert({
            &&& (n & 0xffff) as u16 == (b & 0xffff) as u16
            &&& ((n >> 16u64) & 0x7f) as u8 == x as u8
            &&& ((n >> 23u64) & 1 == 1) == ((b >> 23u64) & 1 == 1)
            &&& ((n >> 24u64) & 0xff) as u8 == ((b >> 24u64) & 0xff) as u8
            &&& ((n >> 32u64) & 0xfff) as u16 == ((b >> 32u64) & 0xfff) as u16
            &&& ((n >> 44u64) & 0xf) as u8 == ((b >> 44u64) & 0xf) as u8
            &&& (n >> 48u64) as u16 == (b >> 48u64) as u16
        }) by (bit_vector)
            requires
                n == (b & !(0x7fu64 << 16u64)) | ((x & 0x7f) << 16u64),
                x < 0x80,
        ;
    }

    /// Sets whether the relocation is relative.
    pub fn set_relative(&mut self, v: bool)
        ensures
            fields(final(self)@) == (RelocationFields { relative: v, ..fields(old(self)@) }),
    {
        let ghost b = self.bits;
        let x: u64 = if v { 1 } else { 0 };
        self.put(23, 1, x);
        let ghost n = self.bits;
        assert({
            &&& (n & 0xffff) as u16 == (b & 0xffff) as u16
            &&& ((n >> 16u64) & 0x7f) as u8 == ((b >> 16u64) & 0x7f) as u8
            &&& ((n >> 23u64) & 1 == 1) == (x == 1)
            &&& ((n >> 24u64) & 0xff) as u8 == ((b >> 24u64) & 0xff) as u8
            &&& ((n >> 32u64) & 0xfff) as u16 == ((b >> 32u64) & 0xfff) as u16
            &&& ((n >> 44u64) & 0xf) as u8 == ((b >> 44u64) & 0xf) as u8
            &&& (n >> 48u64) as u16 == (b >> 48u64) as u16
        }) by (bit_vector)
            requires
                n == (b & !(1u64 << 23u64)) | ((x & 1) << 23u64),
                x < 2,
        ;
    }

    /// Sets the size field (in bits).
    pub fn set_size(&mut self, v: u8)
        ensures
            fields(final(self)@) == (RelocationFields { size: v, ..fields(old(self)@) }),
    {
        let ghost b = self.bits;
        let x: u64 = v as u64;
        self.put(24, 0xff, x);
        let ghost n = self.bits;
        assert({
            &&& (n & 0xffff) as u16 == (b & 0xffff) as u16
            &&& ((n >> 16u64) & 0x7f) as u8 == ((b >> 16u64) & 0x7f) as u8
            &&& ((n >> 23u64) & 1 == 1) == ((b >> 23u64) & 1 == 1)
            &&& ((n >> 24u64) & 0xff) as u8 == x as u8
            &&& ((n >> 32u64) & 0xfff) as u16 == ((b >> 32u64) & 0xfff) as u16
            &&& ((n >> 44u64) & 0xf) as u8 == ((b >> 44u64) & 0xf) as u8
            &&& (n >> 48u64) as u16 == (b >> 48u64) as u16
        }) by (bit_vector)
            requires
                n == (b & !(0xffu64 << 24u64)) | ((x & 0xff) << 24u64),
                x < 0x100,
        ;
    }

    /// Sets the addend field, keeping its low 12 bits.
    pub fn set_addend(&mut self, v: i16)
        ensures
            fields(final(self)@) == (RelocationFields { addend: ((v as u16) & 0xfff) as u16, ..fields(old(self)@) }),
    {
        let ghost b = self.bits;
        let x: u64 = (v as u16) as u64;
        self.put(32, 0xfff, x);
        let ghost n = self.bits;
        assert({
            &&& (n & 0xffff) as u16 == (b & 0xffff) as u16
            &&& ((n >> 16u64) & 0x7f) as u8 == ((b >> 16u64) & 0x7f) as u8
            &&& ((n >> 23u64) & 1 == 1) == ((b >> 23u64) & 1 == 1)
            &&& ((n >> 24u64) & 0xff) as u8 == ((b >> 24u64) & 0xff) as u8
            &&& ((n >> 32u64) & 0xfff) as u16 == (x & 0xfff) as u16
            &&& ((n >> 44u64) & 0xf) as u8 == ((b >> 44u64) & 0xf) as u8
            &&& (n >> 48u64) as u16 == (b >> 48u64) as u16
        }) by (bit_vector)
            requires
                n == (b & !(0xfffu64 << 32u64)) | ((x & 0xfff) << 32u64),
        ;
    }

    /// Sets the patch kind field.
    pub fn set_patch_kind(&mut self, v: PatchKind)
        ensures
            fields(final(self)@) == (RelocationFields { kind: v.spec_into_bits(), ..fields(old(self)@) }),
    {
        let ghost b = self.bits;
        let x: u64 = v.into_bits() as u64;
        self.put(44, 0xf, x);
        let ghost n = self.bits;
        assert({
            &&& (n & 0xffff) as u16 == (b & 0xffff) as u16
            &&& ((n >> 16u64) & 0x7f) as u8 == ((b >> 16u64) & 0x7f) as u8
            &&& ((n >> 23u64) & 1 == 1) == ((b >> 23u64) & 1 == 1)
            &&& ((n >> 24u64) & 0xff) as u8 == ((b >> 24u64) & 0xff) as u8
            &&& ((n >> 32u64) & 0xfff) as u16 == ((b >> 32u64) & 0xfff) as u16
            &&& ((n >> 44u64) & 0xf) as u8 == x as u8
            &&& (n >> 48u64) as u16 == (b >> 48u64) as u16
        }) by (bit_vector)
            requires
                n == (b & !(0xfu64 << 44u64)) | ((x & 0xf) << 44u64),
                x < 0x10,
        ;
    }

    /// Sets the patch id field.
    pub fn set_patch_id(&mut self, v: u16)
        ensures
            fields(final(self)@) == (RelocationFields { patch_id: v, ..fields(old(self)@) }),
    {
        let ghost b = self.bits;
        let x: u64 = v as u64;
        self.put(48, 0xffff, x);
        let ghost n = self.bits;
        assert({
            &&& (n & 0xffff) as u16 == (b & 0xffff) as u16
            &&& ((n >> 16u64) & 0x7f) as u8 == ((b >> 16u64) & 0x7f) as u8
            &&& ((n >> 23u64) & 1 == 1) == ((b >> 23u64) & 1 == 1)
            &&& ((n >> 24u64) & 0xff) as u8 == ((b >> 24u64) & 0xff) as u8
            &&& ((n >> 32u64) & 0xfff) as u16 == ((b >> 32u64) & 0xfff) as u16
            &&& ((n >> 44u64) & 0xf) as u8 == ((b >> 44u64) & 0xf) as u8
            &&& (n >> 48u64) as u16 == x as u16
        }) by (bit_vector)
            requires
                n == (b & !(0xffffu64 << 48u64)) | ((x & 0xffff) << 48u64),
                x < 0x10000,
        ;
    }

    /// The address inside the stencil where the relocation is written.
    pub fn offset(&self) -> (r: u16)
        ensures
            r == offset_field(self@),
    {
        (self.bits & 0xffff) as u16
    }

    pub fn encoding(&self) -> (r: RelocationEncoding)
        ensures
            r == RelocationEncoding::spec_from_bits(encoding_field(self@)),
    {
        RelocationEncoding::from_bits(((self.bits >> 16u64) & 0x7f) as u8)
    }

    /// Whether the value is relative to the relocated location.
    pub fn relative(&self) -> (r: bool)
        ensures
            r == relative_field(self@),
    {
        (self.bits >> 23u64) & 1 == 1
    }

    /// Size in bits.
    pub fn size(&self) -> (r: u8)
        ensures
            r == size_field(self@),
    {
        ((self.bits >> 24u64) & 0xff) as u8
    }

    /// Extra value added to the target before it is written.
    pub fn addend(&self) -> (r: i16)
        ensures
            r == addend_field(self@),
    {
        let b = self.bits;
        assert((b >> 32u64) & 0xfff < 0x1000) by (bit_vector);
        let raw = ((b >> 32u64) & 0xfff) as u16;
        if raw >= 0x800 {
            (raw as i32 - 0x1000) as i16
        } else {
            raw as i16
        }
    }

    pub fn patch_kind(&self) -> (r: PatchKind)
        ensures
            r == PatchKind::spec_from_bits(kind_field(self@)),
    {
        PatchKind::from_bits(((self.bits >> 44u64) & 0xf) as u8)
    }

    pub fn patch_id(&self) -> (r: u16)
        ensures
            r == patch_id_field(self@),
    {
        (self.bits >> 48u64) as u16
    }
}

} // verus!

verus! {

/// `value` fits in an unsigned field of `bits` bits.
pub open spec fn fits_unsigned_spec(value: int, bits: nat) -> bool {
    0 <= value < vstd::arithmetic::power2::pow2(bits)
}

/// `value` fits in a two's complement field of `bits` bits.
pub open spec fn fits_signed_spec(value: int, bits: nat) -> bool {
    if bits == 0 {
        value == 0
    } else {
        -vstd::arithmetic::power2::pow2((bits - 1) as nat) <= value < vstd::arithmetic::power2::pow2(
            (bits - 1) as nat,
        )
    }
}

pub fn fits_unsigned(value: usize, bits: u8) -> (r: bool)
    ensures
        r == fits_unsigned_spec(value as int, bits as nat),
{
    proof {
        vstd::arithmetic::power2::lemma2_to64();
    }
    if bits == 0 {
        value == 0
    } else if bits as u32 >= usize::BITS {
        proof {
            vstd::arithmetic::power2::lemma2_to64_rest();
            if bits as u32 > usize::BITS {
                vstd::arithmetic::power2::lemma_pow2_strictly_increases(
                    usize::BITS as nat,
                    bits as nat,
                );
            }
        }
        true
    } else {
        proof {
            vstd::bits::lemma_usize_pow2_no_overflow(bits as nat);
            vstd::bits::lemma_usize_shl_is_mul(1, bits as usize);
        }
        value < (1usize << (bits as usize))
    }
}

} // verus!

verus! {

pub fn fits_signed(value: isize, bits: u8) -> (r: bool)
    ensures
        r == fits_signed_spec(value as int, bits as nat),
{
    proof {
        vstd::arithmetic::power2::lemma2_to64();
        vstd::arithmetic::power2::lemma2_to64_rest();
    }
    if bits == 0 {
        value == 0
    } else if bits as u32 >= isize::BITS {
        proof {
            if bits as u32 > isize::BITS {
                vstd::arithmetic::power2::lemma_pow2_strictly_increases(
                    (isize::BITS - 1) as nat,
                    (bits - 1) as nat,
                );
            }
        }
        true
    } else {
        let shift: u32 = isize::BITS - bits as u32;
        let k: u32 = bits as u32 - 1;
        let r = (value << shift) >> shift == value;
        proof {
            let one: isize = 1;
            assert(((value << shift) >> shift == value) == (-(one << k) <= value && value < (one
                << k))) by (bit_vector)
                requires
                    shift as int + k as int + 1 == isize::BITS as int,
                    shift >= 1,
                    one == 1,
            ;
            let uone: usize = 1;
            assert((one << k) as int == (uone << k) as int) by (bit_vector)
                requires
                    k as int + 1 < isize::BITS as int,
                    one == 1,
                    uone == 1,
            ;
            vstd::bits::lemma_usize_pow2_no_overflow(k as nat);
            vstd::bits::lemma_usize_shl_is_mul(1, k as usize);
            vstd::arithmetic::power2::lemma_pow2_strictly_increases(k as nat, (isize::BITS - 1) as nat);
        }
        r
    }
}

} // verus!

verus! {

/// Byte `k` of `v` in little-endian order.
pub open spec fn le_byte(v: usize, k: nat) -> u8 {
    ((v >> (8 * k) as usize) & 0xff) as u8
}

/// `dest` with `n` little-endian bytes of `v` written from position `at`.
pub open spec fn write_le_spec(dest: Seq<u8>, at: int, n: nat, v: usize) -> Seq<u8> {
    Seq::new(dest.len(), |i: int| if at <= i < at + n { le_byte(v, (i - at) as nat) } else { dest[i] })
}

pub proof fn lemma_write_le_len(dest: Seq<u8>, at: int, n: nat, v: usize)
    ensures
        write_le_spec(dest, at, n, v).len() == dest.len(),
{
}

/// `dest` with `n` big-endian bytes of `v` written from position `at`.
pub open spec fn write_be_spec(dest: Seq<u8>, at: int, n: nat, v: usize) -> Seq<u8> {
    Seq::new(
        dest.len(),
        |i: int| if at <= i < at + n { le_byte(v, (n - 1 - (i - at)) as nat) } else { dest[i] },
    )
}

/// Writes the `n` low bytes of `v`, big endian, into `dest` from `at`.
pub fn write_be(dest: &mut [u8], at: usize, n: usize, v: usize)
    requires
        8 * n <= usize::BITS,
        at + n <= old(dest)@.len(),
    ensures
        final(dest)@ == write_be_spec(old(dest)@, at as int, n as nat, v),
{
    let ghost d0 = dest@;
    let len = dest.len();
    let mut k: usize = 0;
    while k < n
        invariant
            k <= n,
            8 * n <= usize::BITS,
            at + n <= d0.len(),
            len == d0.len(),
            dest@.len() == d0.len(),
            forall|i: int|
                0 <= i < dest@.len() ==> #[trigger] dest@[i] == (if at <= i < at + k {
                    le_byte(v, (n - 1 - (i - at)) as nat)
                } else {
                    d0[i]
                }),
        decreases n - k,
    {
        let sh: usize = 8 * (n - 1 - k);
        assert((v >> sh) & 0xff <= 0xff) by (bit_vector);
        let b = ((v >> sh) & 0xff) as u8;
        dest[at + k] = b;
        k = k + 1;
    }
    assert(dest@ =~= write_be_spec(d0, at as int, n as nat, v));
}

/// Writes the `n` low bytes of `v`, little endian, into `dest` from `at`.
pub fn write_le(dest: &mut [u8], at: usize, n: usize, v: usize)
    requires
        8 * n <= usize::BITS,
        at + n <= old(dest)@.len(),
    ensures
        final(dest)@ == write_le_spec(old(dest)@, at as int, n as nat, v),
{
    let ghost d0 = dest@;
    let len = dest.len();
    let mut k: usize = 0;
    while k < n
        invariant
            k <= n,
            8 * n <= usize::BITS,
            at + n <= d0.len(),
            len == d0.len(),
            dest@.len() == d0.len(),
            forall|i: int|
                0 <= i < dest@.len() ==> #[trigger] dest@[i] == (if at <= i < at + k {
                    le_byte(v, (i - at) as nat)
                } else {
                    d0[i]
                }),
        decreases n - k,
    {
        let sh: usize = 8 * k;
        assert((v >> sh) & 0xff <= 0xff) by (bit_vector);
        let b = ((v >> sh) & 0xff) as u8;
        dest[at + k] = b;
        k = k + 1;
    }
    assert(dest@ =~= write_le_spec(d0, at as int, n as nat, v));
}

} // verus!

verus! {

pub open spec fn encoding_of(b: u64) -> RelocationEncoding {
    RelocationEncoding::spec_from_bits(encoding_field(b))
}

pub open spec fn patch_info_of(b: u64) -> Option<PatchInfo> {
    let id = patch_id_field(b);
    match PatchKind::spec_from_bits(kind_field(b)) {
        PatchKind::Hole => Some(PatchInfo::Hole(id)),
        PatchKind::Stack => Some(PatchInfo::Stack(id)),
        PatchKind::Target => Some(PatchInfo::Target(id)),
        PatchKind::Runtime => Some(PatchInfo::Runtime(id)),
        PatchKind::Unknown => None,
    }
}

/// Whether `value` can be written in place by a relocation (without going
/// through a wide constant).
pub open spec fn supports_value_spec(b: u64, value: usize) -> bool {
    !relative_field(b) && match encoding_of(b) {
        RelocationEncoding::Generic => fits_unsigned_spec(value as int, size_field(b) as nat),
        RelocationEncoding::X86Signed => fits_signed_spec(
            (value as isize) as int,
            size_field(b) as nat,
        ),
        _ => false,
    }
}

/// The number of bytes a relocation writes.
pub open spec fn width_of(b: u64) -> nat {
    (size_field(b) / 8) as nat
}

/// A relocation can be written at `base` into a buffer of `len` bytes.
pub open spec fn writable(b: u64, base: int, len: int) -> bool {
    &&& (encoding_of(b) == RelocationEncoding::Generic || encoding_of(b)
        == RelocationEncoding::X86Signed)
    &&& 8 * width_of(b) <= usize::BITS
    &&& 0 <= base
    &&& base + offset_field(b) + width_of(b) <= len
}

/// The value a relocation writes for a target value: the target plus the addend.
pub open spec fn written_value(b: u64, value: usize) -> usize {
    value.wrapping_add_signed(addend_field(b) as isize)
}

} // verus!

verus! {

impl Relocation {
    /// An `Invalid` entry ends a relocation list.
    pub fn is_invalid(&self) -> (r: bool)
        ensures
            r == (encoding_of(self@) == RelocationEncoding::Invalid),
    {
        match self.encoding() {
            RelocationEncoding::Invalid => true,
            _ => false,
        }
    }

    pub fn patch_info(&self) -> (r: Option<PatchInfo>)
        ensures
            r == patch_info_of(self@),
    {
        let id = self.patch_id();
        match self.patch_kind() {
            PatchKind::Hole => Some(PatchInfo::Hole(id)),
            PatchKind::Stack => Some(PatchInfo::Stack(id)),
            PatchKind::Target => Some(PatchInfo::Target(id)),
            PatchKind::Runtime => Some(PatchInfo::Runtime(id)),
            PatchKind::Unknown => None,
        }
    }

    /// Whether `value` can be patched in directly: the relocation is absolute
    /// and the value fits its size (unsigned for `Generic`, two's complement
    /// for `X86Signed`).
    pub fn supports_value(&self, value: usize) -> (r: bool)
        ensures
            r == supports_value_spec(self@, value),
    {
        if self.relative() {
            return false;
        }
        match self.encoding() {
            RelocationEncoding::Generic => fits_unsigned(value, self.size()),
            RelocationEncoding::X86Signed => fits_signed(value as isize, self.size()),
            _ => false,
        }
    }

    /// Writes `value` plus the addend, little endian, at the relocation's offset
    /// from `base`.
    pub fn apply_raw_at(&self, dest: &mut [u8], base: usize, value: usize)
        requires
            writable(self@, base as int, old(dest)@.len() as int),
        ensures
            final(dest)@ == write_le_spec(
                old(dest)@,
                base + offset_field(self@),
                width_of(self@),
                written_value(self@, value),
            ),
    {
        let _len = dest.len();
        let value = value.wrapping_add_signed(self.addend() as isize);
        let offset = self.offset();
        let size = self.size();
        write_le(dest, base + offset as usize, (size / 8) as usize, value);
    }

    /// Writes `value` plus the addend, little endian, at the relocation's offset.
    pub fn apply_raw(&self, dest: &mut [u8], value: usize)
        requires
            writable(self@, 0, old(dest)@.len() as int),
        ensures
            final(dest)@ == write_le_spec(
                old(dest)@,
                offset_field(self@) as int,
                width_of(self@),
                written_value(self@, value),
            ),
    {
        self.apply_raw_at(dest, 0, value)
    }

    /// Sets the 12-bit signed addend, refusing values that do not fit.
    pub fn checked_set_addend(&mut self, v: i16) -> (r: Result<(), &'static str>)
        ensures
            r is Ok <==> -2048 <= v <= 2047,
            r is Ok ==> fields(final(self)@) == (RelocationFields {
                addend: ((v as u16) & 0xfff) as u16,
                ..fields(old(self)@)
            }) && addend_field(final(self)@) == v,
            r is Err ==> final(self)@ == old(self)@,
    {
        if v > 2047 || v < -2048 {
            return Err("Value is too big to fit within the field bits.");
        }
        self.set_addend(v);
        assert(({
            let raw = ((v as u16) & 0xfff) as u16;
            if raw >= 0x800 { (raw - 0x1000) as i16 } else { raw as i16 }
        }) == v) by (bit_vector)
            requires
                -2048 <= v <= 2047,
        ;
        Ok(())
    }
}

} // verus!

verus! {

/// Where a jump in a stencil goes.
#[derive(Copy, Clone, PartialEq, Eq, Structural, Debug)]
pub enum JumpTarget {
    /// To the next stencil.
    Next,
    /// To the start of a block.
    Target(u16),
}

/// What a relocation waits for before it can be written.
#[derive(Copy, Clone, PartialEq, Eq, Structural, Debug)]
pub enum DelayedTarget {
    /// The start of a block, known once all blocks are laid out.
    Block(u16),
    /// A wide constant, stored after the block's code.
    Constant(u16),
    /// A runtime function, reached through a trampoline after the code.
    Runtime(u16),
    /// The next stencil, known once it is emitted.
    Next,
}

/// A relocation that is written later, at `offset` in the code buffer.
#[derive(Copy, Clone, Debug)]
pub struct DelayedRelocation {
    offset: usize,
    relocation: Relocation,
    target: DelayedTarget,
}

/// What a delayed relocation holds: the start of its stencil in the code
/// buffer, the bits of its entry, and what it waits for.
pub struct DelayedView {
    pub base: usize,
    pub entry: u64,
    pub target: DelayedTarget,
}

impl DelayedView {
    /// Where the relocation is written: stencil start plus relocation offset.
    pub open spec fn location(self) -> int {
        self.base + offset_field(self.entry)
    }

    /// The value written for `value`, the relocation's code placed at `base`.
    pub open spec fn resolve(self, base: usize, value: usize) -> usize {
        if relative_field(self.entry) {
            value.wrapping_sub((base + self.location()) as usize)
        } else {
            value
        }
    }

    /// `dest` after writing `value` at the relocation's location.
    pub open spec fn write(self, dest: Seq<u8>, value: usize) -> Seq<u8> {
        write_le_spec(dest, self.location(), width_of(self.entry), written_value(self.entry, value))
    }

    /// The relocation can be written into a buffer of `len` bytes.
    pub open spec fn fits(self, len: int) -> bool {
        writable(self.entry, self.base as int, len)
    }
}

impl View for DelayedRelocation {
    type V = DelayedView;

    closed spec fn view(&self) -> DelayedView {
        DelayedView { base: self.offset, entry: self.relocation@, target: self.target }
    }
}

impl DelayedRelocation {
    /// A relocation that will point at wide constant number `constant`.
    pub fn constant(offset: usize, relocation: Relocation, constant: u16) -> (r: Self)
        ensures
            r@ == (DelayedView { base: offset, entry: relocation@, target: DelayedTarget::Constant(constant) }),
    {
        Self { offset, relocation, target: DelayedTarget::Constant(constant) }
    }

    /// A relocation that will point at the next stencil.
    pub fn next(offset: usize, relocation: Relocation) -> (r: Self)
        ensures
            r@ == (DelayedView { base: offset, entry: relocation@, target: DelayedTarget::Next }),
    {
        Self { offset, relocation, target: DelayedTarget::Next }
    }

    pub fn target(&self) -> (r: DelayedTarget)
        ensures
            r == self@.target,
    {
        self.target
    }

    pub fn offset(&self) -> (r: usize)
        ensures
            r == self@.base,
    {
        self.offset
    }

    /// The position in the code buffer where the value is written.
    pub fn location(&self) -> (r: usize)
        requires
            self@.location() <= usize::MAX,
        ensures
            r == self@.location(),
    {
        self.offset + self.relocation.offset() as usize
    }

    /// Writes `value` (plus the addend) at the relocation's location moved by
    /// `shift` (where the block's code starts in `dest`).
    pub(crate) fn apply_at(&self, dest: &mut [u8], shift: usize, value: usize)
        requires
            writable(self@.entry, self@.base + shift, old(dest)@.len() as int),
        ensures
            final(dest)@ == write_le_spec(
                old(dest)@,
                shift + self@.location(),
                width_of(self@.entry),
                written_value(self@.entry, value),
            ),
    {
        let _len = dest.len();
        self.relocation.apply_raw_at(dest, self.offset + shift, value)
    }

    /// Where the write of the relocation ends in the code buffer.
    pub(crate) fn write_end(&self) -> (r: usize)
        requires
            self@.location() + width_of(self@.entry) <= usize::MAX,
        ensures
            r == self@.location() + width_of(self@.entry),
    {
        self.offset + self.relocation.offset() as usize + (self.relocation.size() / 8) as usize
    }

    /// The value to write for `value`: as is for an absolute relocation, and
    /// relative to the relocated location (placed at `base`) otherwise.
    pub fn resolve(&self, base: usize, value: usize) -> (r: usize)
        requires
            base + self@.location() <= usize::MAX,
        ensures
            r == self@.resolve(base, value),
    {
        if self.relocation.relative() {
            value.wrapping_sub(base + self.location())
        } else {
            value
        }
    }

    /// Writes `value` (plus the addend) at the relocation's location.
    pub fn apply(&self, dest: &mut [u8], value: usize)
        requires
            self@.fits(old(dest)@.len() as int),
        ensures
            final(dest)@ == self@.write(old(dest)@, value),
    {
        self.relocation.apply_raw_at(dest, self.offset, value)
    }

    /// Patches the relocation's value in place, or defers it.
    ///
    /// Holes and stack slots are known now: the value (made relative to the
    /// relocated location when the relocation is relative) is written at
    /// `offset` and `None` comes back. Jump targets and runtime functions are
    /// not known yet: a delayed relocation comes back and `dest` is unchanged.
    pub fn try_apply(
        dest: &mut [u8],
        offset: usize,
        relocation: Relocation,
        stack_vars: &[usize],
        holes: &[usize],
        jumps: &[JumpTarget],
    ) -> (r: Option<Self>)
        requires
            try_apply_ok(relocation@, offset as int, old(dest)@.len() as int, stack_vars@.len(),
                holes@.len(), jumps@.len()),
        ensures
            r is Some <==> delayed_target_of(relocation@, jumps@) is Some,
            r matches Some(d) ==> d@.base == offset && d@.entry == relocation@ && Some(d@.target)
                == delayed_target_of(relocation@, jumps@),
            final(dest)@ == try_apply_write(old(dest)@, relocation@, offset, stack_vars@, holes@),
    {
        let _len = dest.len();
        let mut value = match relocation.patch_info() {
            Some(PatchInfo::Hole(i)) => holes[i as usize],
            Some(PatchInfo::Stack(i)) => stack_vars[i as usize],
            Some(PatchInfo::Target(i)) => {
                return Some(
                    DelayedRelocation {
                        offset,
                        relocation,
                        target: match jumps[i as usize] {
                            JumpTarget::Next => DelayedTarget::Next,
                            JumpTarget::Target(target) => DelayedTarget::Block(target),
                        },
                    },
                );
            },
            Some(PatchInfo::Runtime(i)) => {
                return Some(
                    DelayedRelocation { offset, relocation, target: DelayedTarget::Runtime(i) },
                );
            },
            None => {
                return None;
            },
        };
        if relocation.relative() {
            value = value.wrapping_sub(offset + relocation.offset() as usize);
        }
        relocation.apply_raw_at(dest, offset, value);
        None
    }
}

/// The conditions under which `try_apply` is defined: a known patch kind, an
/// index in range for what it refers to, and room to write.
pub open spec fn try_apply_ok(
    b: u64,
    offset: int,
    len: int,
    n_stack: nat,
    n_holes: nat,
    n_jumps: nat,
) -> bool {
    match patch_info_of(b) {
        Some(PatchInfo::Hole(i)) => i < n_holes && writable(b, offset, len),
        Some(PatchInfo::Stack(i)) => i < n_stack && writable(b, offset, len),
        Some(PatchInfo::Target(i)) => i < n_jumps,
        Some(PatchInfo::Runtime(_)) => true,
        None => false,
    }
}

/// What a relocation waits for, when `try_apply` defers it.
pub open spec fn delayed_target_of(b: u64, jumps: Seq<JumpTarget>) -> Option<DelayedTarget> {
    match patch_info_of(b) {
        Some(PatchInfo::Target(i)) => Some(
            match jumps[i as int] {
                JumpTarget::Next => DelayedTarget::Next,
                JumpTarget::Target(t) => DelayedTarget::Block(t),
            },
        ),
        Some(PatchInfo::Runtime(i)) => Some(DelayedTarget::Runtime(i)),
        _ => None,
    }
}

pub open spec fn try_apply_write(
    dest: Seq<u8>,
    b: u64,
    offset: usize,
    stack_vars: Seq<usize>,
    holes: Seq<usize>,
) -> Seq<u8> {
    let known = match patch_info_of(b) {
        Some(PatchInfo::Hole(i)) => Some(holes[i as int]),
        Some(PatchInfo::Stack(i)) => Some(stack_vars[i as int]),
        _ => None,
    };
    match known {
        Some(v) => {
            let value = if relative_field(b) {
                v.wrapping_sub((offset + offset_field(b)) as usize)
            } else {
                v
            };
            write_le_spec(dest, offset + offset_field(b), width_of(b), written_value(b, value))
        },
        None => dest,
    }
}

} // verus!

verus! {

/// The number the `n` little-endian bytes of `d` from `at` spell.
pub open spec fn read_le_spec(d: Seq<u8>, at: int, n: nat) -> nat
    decreases n,
{
    if n == 0 {
        0
    } else {
        read_le_spec(d, at, (n - 1) as nat) + d[at + n - 1] as nat * vstd::arithmetic::power2::pow2(
            (8 * (n - 1)) as nat,
        )
    }
}

proof fn lemma_read_bytes(w: Seq<u8>, at: int, n: nat, v: usize)
    requires
        8 * n <= usize::BITS,
        forall|k: int| 0 <= k < n ==> #[trigger] w[at + k] == le_byte(v, k as nat),
    ensures
        read_le_spec(w, at, n) == v as nat % vstd::arithmetic::power2::pow2(8 * n),
    decreases n,
{
    if n == 0 {
        vstd::arithmetic::power2::lemma2_to64();
    } else {
        let k = (n - 1) as nat;
        lemma_read_bytes(w, at, k, v);
        let p = vstd::arithmetic::power2::pow2(8 * k);
        vstd::arithmetic::power2::lemma_pow2_pos(8 * k);
        vstd::arithmetic::power2::lemma_pow2_adds(8 * k, 8);
        vstd::arithmetic::power2::lemma2_to64();
        assert(8 * k + 8 == 8 * n);
        assert(vstd::arithmetic::power2::pow2(8 * n) == p * 256);
        let sh = (8 * k) as usize;
        vstd::bits::lemma_usize_shr_is_div(v, sh);
        let q = v >> sh;
        assert(q & 0xff == q % 256) by (bit_vector);
        assert(w[at + k] == le_byte(v, k));
        assert(le_byte(v, k) as nat == (v as nat / p) % 256);
        vstd::arithmetic::div_mod::lemma_mod_breakdown(v as int, p as int, 256);
        assert(read_le_spec(w, at, n) == v as nat % p + (v as nat / p) % 256 * p);
        vstd::arithmetic::mul::lemma_mul_is_commutative(((v as nat / p) % 256) as int, p as int);
    }
}

/// What a write of `n` little-endian bytes puts down reads back as the
/// value modulo `2^(8n)`.
pub proof fn lemma_write_le_reads_back(dest: Seq<u8>, at: int, n: nat, v: usize)
    requires
        8 * n <= usize::BITS,
        0 <= at,
        at + n <= dest.len(),
    ensures
        read_le_spec(write_le_spec(dest, at, n, v), at, n) == v as nat % vstd::arithmetic::power2::pow2(8 * n),
{
    let w = write_le_spec(dest, at, n, v);
    assert(forall|k: int| 0 <= k < n ==> #[trigger] w[at + k] == le_byte(v, k as nat));
    lemma_read_bytes(w, at, n, v);
}

/// The bytes a relocation patches read back, little endian, as the value it
/// writes (the target plus the addend) modulo its width.
pub proof fn lemma_patch_reads_back(b: u64, dest: Seq<u8>, base: int, value: usize)
    requires
        writable(b, base, dest.len() as int),
    ensures
        read_le_spec(
            write_le_spec(dest, base + offset_field(b), width_of(b), written_value(b, value)),
            base + offset_field(b),
            width_of(b),
        ) == written_value(b, value) as nat % vstd::arithmetic::power2::pow2(8 * width_of(b)),
{
    lemma_write_le_reads_back(dest, base + offset_field(b), width_of(b), written_value(b, value));
}

} // verus!
