//! Firmware images: a whole number of fixed-size blocks with a checksum,
//! and the catalog that maps `(type, version)` to an image.

use vstd::prelude::*;

verus! {

/// Bytes in one block of a firmware transfer.
pub const BLOCK_SIZE: usize = 16;

/// The byte that fills gaps and the tail of the last block.
pub const FILL_BYTE: u8 = 0xff;

/// Largest number of blocks in one image.
pub const MAX_BLOCKS: usize = 4096;

/// One step of the CRC-16 shift register (reflected polynomial 0xA001),
/// taken `k` times.
pub open spec fn crc_shift(c: u16, k: nat) -> u16
    decreases k,
{
    if k == 0 {
        c
    } else {
        crc_shift(
            if c & 1 == 1 {
                (c >> 1u16) ^ 0xa001u16
            } else {
                c >> 1u16
            },
            (k - 1) as nat,
        )
    }
}

pub open spec fn crc_byte(c: u16, b: u8) -> u16 {
    crc_shift(c ^ (b as u16), 8)
}

/// The CRC-16 of a sequence of bytes, starting from 0xFFFF.
pub open spec fn crc16(s: Seq<u8>) -> u16
    decreases s.len(),
{
    if s.len() == 0 {
        0xffffu16
    } else {
        crc_byte(crc16(s.drop_last()), s.last())
    }
}

fn crc_update(c: u16, b: u8) -> (r: u16)
    ensures
        r == crc_byte(c, b),
{
    let mut x: u16 = c ^ (b as u16);
    let mut k: u32 = 8;
    while k > 0
        invariant
            k <= 8,
            crc_shift(x, k as nat) == crc_byte(c, b),
        decreases k,
    {
        if x & 1 == 1 {
            x = (x >> 1u16) ^ 0xa001u16;
        } else {
            x = x >> 1u16;
        }
        k = k - 1;
    }
    x
}

/// The CRC-16 of `data`.
pub fn checksum(data: &Vec<u8>) -> (r: u16)
    ensures
        r == crc16(data@),
{
    let mut c: u16 = 0xffff;
    let mut i: usize = 0;
    assert(data@.take(0) =~= Seq::<u8>::empty());
    while i < data.len()
        invariant
            i <= data.len(),
            c == crc16(data@.take(i as int)),
        decreases data.len() - i,
    {
        assert(data@.take(i + 1).drop_last() =~= data@.take(i as int));
        c = crc_update(c, data[i]);
        i = i + 1;
    }
    assert(data@.take(data.len() as int) =~= data@);
    c
}

/// A firmware image: its type, its version, and its bytes, a whole number
/// of blocks.
#[derive(Debug)]
pub struct FirmwareImage {
    type_id: u16,
    version: u16,
    data: Vec<u8>,
    crc: u16,
}

pub struct ImageView {
    pub type_id: u16,
    pub version: u16,
    pub data: Seq<u8>,
    pub crc: u16,
}

impl View for FirmwareImage {
    type V = ImageView;

    closed spec fn view(&self) -> ImageView {
        ImageView { type_id: self.type_id, version: self.version, data: self.data@, crc: self.crc }
    }
}

pub open spec fn image_wf(i: ImageView) -> bool {
    &&& i.data.len() % (BLOCK_SIZE as nat) == 0
    &&& 0 < i.data.len() / (BLOCK_SIZE as nat) <= MAX_BLOCKS
    &&& i.crc == crc16(i.data)
}

pub open spec fn block_count(i: ImageView) -> nat {
    i.data.len() / (BLOCK_SIZE as nat)
}

/// The bytes of block `n`.
pub open spec fn block_data(i: ImageView, n: nat) -> Seq<u8> {
    i.data.subrange((n * BLOCK_SIZE) as int, ((n + 1) * BLOCK_SIZE) as int)
}

/// `data` padded with `FILL_BYTE` up to a whole number of blocks.
pub open spec fn padded(data: Seq<u8>) -> Seq<u8> {
    let rem = data.len() % (BLOCK_SIZE as nat);
    if rem == 0 {
        data
    } else {
        data + Seq::new((BLOCK_SIZE - rem) as nat, |_i: int| FILL_BYTE)
    }
}

pub enum ImageError {
    /// No bytes at all.
    Empty,
    /// More than `MAX_BLOCKS` blocks.
    TooLarge,
}

impl FirmwareImage {
    pub open spec fn wf(&self) -> bool {
        image_wf(self@)
    }

    /// Every image is a whole number of blocks, within bounds, with the
    /// checksum of its bytes.
    #[verifier::type_invariant]
    pub open spec fn inv(&self) -> bool {
        self.wf()
    }

    /// An image of `data`, its last block filled up with `FILL_BYTE`.
    pub fn new(type_id: u16, version: u16, data: Vec<u8>) -> (r: Result<FirmwareImage, ImageError>)
        ensures
            data@.len() == 0 ==> r == Err::<FirmwareImage, ImageError>(ImageError::Empty),
            data@.len() > MAX_BLOCKS * BLOCK_SIZE ==> r == Err::<FirmwareImage, ImageError>(
                ImageError::TooLarge,
            ),
            0 < data@.len() <= MAX_BLOCKS * BLOCK_SIZE ==> r is Ok,
            r matches Ok(img) ==> img.wf() && img@.type_id == type_id && img@.version == version
                && img@.data == padded(data@) && block_count(img@) == (data@.len() + BLOCK_SIZE - 1) as nat
                / (BLOCK_SIZE as nat),
    {
        if data.len() == 0 {
            return Err(ImageError::Empty);
        }
        if data.len() > MAX_BLOCKS * BLOCK_SIZE {
            return Err(ImageError::TooLarge);
        }
        let mut d = data;
        let ghost orig = d@;
        let rem = d.len() % BLOCK_SIZE;
        if rem != 0 {
            let mut k: usize = 0;
            while k < BLOCK_SIZE - rem
                invariant
                    rem == orig.len() % (BLOCK_SIZE as nat),
                    0 < rem < BLOCK_SIZE,
                    k <= BLOCK_SIZE - rem,
                    d@ =~= orig + Seq::new(k as nat, |_i: int| FILL_BYTE),
                    orig.len() <= MAX_BLOCKS * BLOCK_SIZE,
                decreases BLOCK_SIZE - rem - k,
            {
                d.push(FILL_BYTE);
                k = k + 1;
            }
            assert(d@.len() == orig.len() + (BLOCK_SIZE - rem));
            assert(d@.len() < orig.len() + 16);
            assert(d@.len() % (BLOCK_SIZE as nat) == 0) by (nonlinear_arith)
                requires
                    d@.len() == orig.len() + (BLOCK_SIZE - rem),
                    rem == orig.len() % (BLOCK_SIZE as nat),
                    BLOCK_SIZE == 16,
            ;
        }
        assert(d@ == padded(orig));
        assert(d@.len() / 16 == (orig.len() + 15) / 16) by (nonlinear_arith)
            requires
                d@.len() % 16 == 0,
                orig.len() <= d@.len() < orig.len() + 16,
        ;
        let crc = checksum(&d);
        assert(d@.len() <= MAX_BLOCKS * BLOCK_SIZE) by (nonlinear_arith)
            requires
                d@.len() % 16 == 0,
                d@.len() < orig.len() + 16,
                orig.len() <= 4096 * 16,
                BLOCK_SIZE == 16,
                MAX_BLOCKS == 4096,
        ;
        Ok(FirmwareImage { type_id, version, data: d, crc })
    }

    pub fn type_id(&self) -> (r: u16)
        ensures
            r == self@.type_id,
    {
        self.type_id
    }

    pub fn version(&self) -> (r: u16)
        ensures
            r == self@.version,
    {
        self.version
    }

    pub fn crc(&self) -> (r: u16)
        ensures
            r == self@.crc,
            r == crate::firmware::crc16(self@.data),
    {
        proof {
            use_type_invariant(self);
        }
        self.crc
    }

    pub fn blocks(&self) -> (r: u16)
        ensures
            r == block_count(self@),
    {
        proof {
            use_type_invariant(self);
        }
        (self.data.len() / BLOCK_SIZE) as u16
    }

    /// The bytes of block `n`.
    pub fn block(&self, n: u16) -> (r: Vec<u8>)
        requires
            (n as nat) < block_count(self@),
        ensures
            r@ == block_data(self@, n as nat),
    {
        proof {
            use_type_invariant(self);
        }
        let start = n as usize * BLOCK_SIZE;
        assert(start + BLOCK_SIZE <= self.data.len()) by (nonlinear_arith)
            requires
                start == n * 16,
                (n as nat) < self.data@.len() / 16,
                BLOCK_SIZE == 16,
        ;
        let mut r: Vec<u8> = Vec::new();
        let mut i: usize = 0;
        while i < BLOCK_SIZE
            invariant
                start + BLOCK_SIZE <= self.data.len(),
                i <= BLOCK_SIZE,
                r@ =~= self.data@.subrange(start as int, start + i),
            decreases BLOCK_SIZE - i,
        {
            r.push(self.data[start + i]);
            i = i + 1;
        }
        r
    }
}

} // verus!
