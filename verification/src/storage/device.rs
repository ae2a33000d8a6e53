//! Block devices.

use vstd::prelude::*;
use crate::bytes::{copy_range, put_bytes};
use crate::text::{dec, four_bytes, push_dec, push_four_bytes};

verus! {

/// What can go wrong on a device.
#[derive(Clone, Debug, PartialEq, Eq)]
pub enum StorageError {
    /// The range lies outside the device.
    OutOfBounds { offset: u64, len: usize },
    /// The device failed; the message is its own.
    Device(String),
    /// The node is not of the kind that was expected.
    InvalidBtreeKind(u16),
    /// The first bytes are not those that were expected.
    InvalidMagic { expected: [u8; 4], actual: [u8; 4] },
    /// The format version is not known.
    UnsupportedFormatVersion(u32),
    /// The node does not fit into its region.
    RegionFull { needed: usize, size: u64 },
}

/// What an error says.
pub open spec fn storage_text(e: StorageError) -> Seq<char> {
    match e {
        StorageError::OutOfBounds { offset, len } => dec(len as nat) + " bytes at offset "@ + dec(
            offset as nat,
        ) + " are out of bounds"@,
        StorageError::Device(m) => "device error: "@ + m@,
        StorageError::InvalidBtreeKind(k) => "invalid btree kind: "@ + dec(k as nat),
        StorageError::InvalidMagic { expected, actual } => "invalid magic: expected "@ + four_bytes(
            expected@,
        ) + ", got "@ + four_bytes(actual@),
        StorageError::UnsupportedFormatVersion(v) => "unsupported format version: "@ + dec(
            v as nat,
        ),
        StorageError::RegionFull { needed, size } => "node of "@ + dec(needed as nat)
            + " bytes exceeds its region of "@ + dec(size as nat) + " bytes"@,
    }
}

impl StorageError {
    /// What the error says.
    pub fn message(&self) -> (r: String)
        ensures
            r@ == storage_text(*self),
    {
        let mut out = String::new();
        match self {
            StorageError::OutOfBounds { offset, len } => {
                push_dec(&mut out, *len as u64);
                out.push_str(" bytes at offset ");
                push_dec(&mut out, *offset);
                out.push_str(" are out of bounds");
            },
            StorageError::Device(m) => {
                out.push_str("device error: ");
                out.push_str(m.as_str());
            },
            StorageError::InvalidBtreeKind(k) => {
                out.push_str("invalid btree kind: ");
                push_dec(&mut out, *k as u64);
            },
            StorageError::InvalidMagic { expected, actual } => {
                out.push_str("invalid magic: expected ");
                push_four_bytes(&mut out, expected);
                out.push_str(", got ");
                push_four_bytes(&mut out, actual);
            },
            StorageError::UnsupportedFormatVersion(v) => {
                out.push_str("unsupported format version: ");
                push_dec(&mut out, *v as u64);
            },
            StorageError::RegionFull { needed, size } => {
                out.push_str("node of ");
                push_dec(&mut out, *needed as u64);
                out.push_str(" bytes exceeds its region of ");
                push_dec(&mut out, *size);
                out.push_str(" bytes");
            },
        }
        proof {
            assert(out@ =~= storage_text(*self));
        }
        out
    }
}

/// `contents` with `bytes` written at `offset`.
pub open spec fn overwritten(contents: Seq<u8>, offset: int, bytes: Seq<u8>) -> Seq<u8> {
    contents.subrange(0, offset) + bytes + contents.subrange(
        offset + bytes.len(),
        contents.len() as int,
    )
}

/// Bytes that can be read and written at any offset. A device may fail at any
/// time; one that is `reliable` fails only outside its bounds.
pub trait BlockDevice {
    /// The bytes on the device. An implementation that is not verified leaves
    /// them unspecified.
    open spec fn contents(&self) -> Seq<u8> {
        arbitrary()
    }

    /// The device answers every request within its bounds. Unspecified where
    /// the implementation is not verified.
    open spec fn reliable(&self) -> bool {
        arbitrary()
    }

    /// The bytes that are safe on the medium. Unspecified where the
    /// implementation is not verified.
    open spec fn durable(&self) -> Seq<u8> {
        arbitrary()
    }

    /// The `len` bytes at `offset`.
    fn read_at(&self, offset: u64, len: usize) -> (r: Result<Vec<u8>, StorageError>)
        ensures
            match r {
                Ok(b) => {
                    &&& offset + len <= self.contents().len()
                    &&& b@ == self.contents().subrange(offset as int, offset + len)
                },
                Err(_) => self.reliable() ==> offset + len > self.contents().len(),
            },
    ;

    /// Replace the bytes at `offset` by `bytes`.
    fn write_at(&mut self, offset: u64, bytes: &[u8]) -> (r: Result<(), StorageError>)
        ensures
            old(self).reliable() ==> final(self).reliable(),
            match r {
                Ok(_) => {
                    &&& offset + bytes@.len() <= old(self).contents().len()
                    &&& final(self).contents() == overwritten(
                        old(self).contents(),
                        offset as int,
                        bytes@,
                    )
                },
                Err(_) => old(self).reliable() ==> offset + bytes@.len() > old(
                    self,
                ).contents().len() && final(self).contents() == old(self).contents(),
            },
    ;

    /// Bring what was written to the medium.
    fn sync(&mut self) -> (r: Result<(), StorageError>)
        ensures
            old(self).reliable() ==> final(self).reliable() && r is Ok,
            final(self).contents() == old(self).contents(),
            r is Ok ==> final(self).durable() == final(self).contents(),
    ;
}

/// A device in memory.
#[derive(Debug)]
pub struct MemoryDevice {
    bytes: Vec<u8>,
}

impl MemoryDevice {
    /// A device of `size` zero bytes.
    pub fn new(size: usize) -> (r: Self)
        ensures
            r.contents() == crate::bytes::zeros(size as nat),
            r.reliable(),
    {
        let mut bytes: Vec<u8> = Vec::new();
        crate::bytes::put_zeros(&mut bytes, size);
        proof {
            assert(bytes@ =~= crate::bytes::zeros(size as nat));
        }
        MemoryDevice { bytes }
    }
}

impl BlockDevice for MemoryDevice {
    closed spec fn contents(&self) -> Seq<u8> {
        self.bytes@
    }

    open spec fn reliable(&self) -> bool {
        true
    }

    open spec fn durable(&self) -> Seq<u8> {
        self.contents()
    }

    fn read_at(&self, offset: u64, len: usize) -> (r: Result<Vec<u8>, StorageError>) {
        let total: usize = self.bytes.len();
        if offset > total as u64 || len as u64 > total as u64 - offset {
            return Err(StorageError::OutOfBounds { offset, len });
        }
        let at = offset as usize;
        Ok(copy_range(self.bytes.as_slice(), at, at + len))
    }

    fn write_at(&mut self, offset: u64, bytes: &[u8]) -> (r: Result<(), StorageError>) {
        let total: usize = self.bytes.len();
        if offset > total as u64 || bytes.len() as u64 > total as u64 - offset {
            return Err(StorageError::OutOfBounds { offset, len: bytes.len() });
        }
        let at = offset as usize;
        let mut out = copy_range(self.bytes.as_slice(), 0, at);
        put_bytes(&mut out, bytes);
        let tail = copy_range(self.bytes.as_slice(), at + bytes.len(), total);
        put_bytes(&mut out, tail.as_slice());
        self.bytes = out;
        Ok(())
    }

    fn sync(&mut self) -> (r: Result<(), StorageError>) {
        Ok(())
    }
}

/// What was written is what is read back.
pub proof fn read_after_write(contents: Seq<u8>, offset: int, bytes: Seq<u8>)
    requires
        0 <= offset,
        offset + bytes.len() <= contents.len(),
    ensures
        overwritten(contents, offset, bytes).subrange(offset, offset + bytes.len()) == bytes,
        overwritten(contents, offset, bytes).len() == contents.len(),
{
    assert(overwritten(contents, offset, bytes).subrange(offset, offset + bytes.len()) =~= bytes);
}

/// A write leaves every range that it does not touch as it was.
pub proof fn write_elsewhere(contents: Seq<u8>, offset: int, bytes: Seq<u8>, from: int, to: int)
    requires
        0 <= offset,
        offset + bytes.len() <= contents.len(),
        0 <= from <= to <= contents.len(),
        to <= offset || offset + bytes.len() <= from,
    ensures
        overwritten(contents, offset, bytes).subrange(from, to) == contents.subrange(from, to),
{
    assert(overwritten(contents, offset, bytes).subrange(from, to) =~= contents.subrange(from, to));
}

} // verus!
