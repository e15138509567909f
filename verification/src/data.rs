//! The pack data file: a 12-byte header (`"PACK"`, a version in {2, 3}, the
//! object count), the entries, and a 20-byte trailing content checksum.
use vstd::prelude::*;

verus! {

use crate::bytes::be32;
use crate::bytes::read_be32;
use crate::errors::Error;

/// The version of a pack data file.
#[derive(PartialEq, Eq, Debug, Hash, Ord, PartialOrd, Clone, Copy, Structural)]
pub enum Kind {
    V2,
    V3,
}

/// A pack data file is well formed when it is long enough for its header and
/// trailer, starts with the `"PACK"` magic, and declares version 2 or 3.
pub open spec fn pack_wf(d: Seq<u8>) -> bool {
    &&& d.len() >= 32
    &&& d[0] == 80
    &&& d[1] == 65
    &&& d[2] == 67
    &&& d[3] == 75
    &&& (be32(d, 4) == 2 || be32(d, 4) == 3)
}

/// The object count a pack declares in its header.
pub open spec fn pack_object_count(d: Seq<u8>) -> nat {
    be32(d, 8)
}

/// The 20-byte content checksum at the end of a pack.
pub open spec fn pack_trailer(d: Seq<u8>) -> Seq<u8> {
    d.subrange(d.len() - 20, d.len() as int)
}

/// A pack data file held in memory, with its parsed header fields.
pub struct File {
    pub data: Vec<u8>,
    pub path: String,
    pub kind: Kind,
    pub num_objects: u32,
}

impl File {
    /// The parsed fields agree with the raw bytes.
    pub open spec fn wf(&self) -> bool {
        &&& pack_wf(self.data@)
        &&& self.kind == (if be32(self.data@, 4) == 2 {
            Kind::V2
        } else {
            Kind::V3
        })
        &&& self.num_objects as nat == pack_object_count(self.data@)
    }

    /// Take ownership of a pack file's bytes, validating its header.
    pub fn from_data(data: Vec<u8>, path: String) -> (r: Result<File, Error>)
        ensures
            match r {
                Ok(f) => f.wf() && f.data@ == data@ && f.path@ == path@,
                Err(e) => !pack_wf(data@) && e == Error::MalformedHeader,
            },
    {
        if data.len() < 32 {
            return Err(Error::MalformedHeader);
        }
        let d = data.as_slice();
        if !(d[0] == 80 && d[1] == 65 && d[2] == 67 && d[3] == 75) {
            return Err(Error::MalformedHeader);
        }
        let version = read_be32(d, 4);
        if version != 2 && version != 3 {
            return Err(Error::MalformedHeader);
        }
        let num_objects = read_be32(d, 8);
        let kind = if version == 2 {
            Kind::V2
        } else {
            Kind::V3
        };
        Ok(File { data, path, kind, num_objects })
    }

    /// The pack's declared version.
    pub fn kind(&self) -> (r: Kind)
        ensures
            r == self.kind,
    {
        self.kind
    }

    /// The object count the pack header declares.
    pub fn num_objects(&self) -> (r: u32)
        ensures
            r == self.num_objects,
    {
        self.num_objects
    }

    /// The length of the whole file in bytes.
    pub fn data_len(&self) -> (r: usize)
        ensures
            r == self.data@.len(),
    {
        self.data.len()
    }

    /// The path the bytes were read from.
    pub fn path(&self) -> (r: &String)
        ensures
            r@ == self.path@,
    {
        &self.path
    }
}

} // verus!
