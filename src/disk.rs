//! One virtual drive: an append-only sequence of bits.
use vstd::prelude::*;
use crate::RaidError;

verus! {

/// Whether a disk holds data bits or parity bits; descriptive only.
#[derive(Clone, Copy, Debug, PartialEq, Eq, Structural)]
pub enum DiskType {
    Data,
    Parity,
}

/// An append-only sequence of bits with a declared capacity.
pub struct Disk {
    info: Vec<bool>,
    capacity: usize,
    disk_type: DiskType,
}

impl View for Disk {
    type V = Seq<bool>;

    closed spec fn view(&self) -> Seq<bool> {
        self.info@
    }
}

impl Disk {
    /// The capacity the disk was declared with.
    pub closed spec fn spec_capacity(&self) -> nat {
        self.capacity as nat
    }

    pub closed spec fn spec_disk_type(&self) -> DiskType {
        self.disk_type
    }

    /// An empty disk of the given capacity and kind.
    pub fn new(disk_size: usize, disk_type: DiskType) -> (r: Self)
        ensures
            r@ == Seq::<bool>::empty(),
            r.spec_capacity() == disk_size,
            r.spec_disk_type() == disk_type,
    {
        Disk { info: Vec::with_capacity(disk_size), capacity: disk_size, disk_type }
    }

    pub fn capacity(&self) -> (r: usize)
        ensures
            r == self.spec_capacity(),
    {
        self.capacity
    }

    pub fn disk_type(&self) -> (r: DiskType)
        ensures
            r == self.spec_disk_type(),
    {
        self.disk_type
    }

    /// Number of bits written so far.
    pub fn len(&self) -> (r: usize)
        ensures
            r == self@.len(),
    {
        self.info.len()
    }

    /// Appends one bit.
    pub fn write(&mut self, bit: bool)
        ensures
            final(self)@ == old(self)@.push(bit),
            final(self).spec_capacity() == old(self).spec_capacity(),
            final(self).spec_disk_type() == old(self).spec_disk_type(),
    {
        self.info.push(bit);
    }

    /// The bit at `index`, or `OutOfRange` when it has not been written.
    pub fn get(&self, index: usize) -> (r: Result<bool, RaidError>)
        ensures
            index < self@.len() ==> r == Ok::<bool, RaidError>(self@[index as int]),
            index >= self@.len() ==> r == Err::<bool, RaidError>(RaidError::OutOfRange),
    {
        if index >= self.info.len() {
            Err(RaidError::OutOfRange)
        } else {
            Ok(self.info[index])
        }
    }

    /// The most recently written bit, or `OutOfRange` on an empty disk.
    pub fn get_last(&self) -> (r: Result<bool, RaidError>)
        ensures
            self@.len() > 0 ==> r == Ok::<bool, RaidError>(self@.last()),
            self@.len() == 0 ==> r == Err::<bool, RaidError>(RaidError::OutOfRange),
    {
        if self.info.len() == 0 {
            Err(RaidError::OutOfRange)
        } else {
            self.get(self.info.len() - 1)
        }
    }
}

} // verus!
