//! Four-character codes of the boxes that the library reads and writes.

use vstd::prelude::*;

verus! {

pub const FTYP: [u8; 4] = [0x66u8, 0x74u8, 0x79u8, 0x70u8];

pub const META: [u8; 4] = [0x6du8, 0x65u8, 0x74u8, 0x61u8];

pub const MDAT: [u8; 4] = [0x6du8, 0x64u8, 0x61u8, 0x74u8];

pub const IDAT: [u8; 4] = [0x69u8, 0x64u8, 0x61u8, 0x74u8];

pub const PITM: [u8; 4] = [0x70u8, 0x69u8, 0x74u8, 0x6du8];

pub const IINF: [u8; 4] = [0x69u8, 0x69u8, 0x6eu8, 0x66u8];

pub const INFE: [u8; 4] = [0x69u8, 0x6eu8, 0x66u8, 0x65u8];

pub const ILOC: [u8; 4] = [0x69u8, 0x6cu8, 0x6fu8, 0x63u8];

pub const IPRP: [u8; 4] = [0x69u8, 0x70u8, 0x72u8, 0x70u8];

pub const IPCO: [u8; 4] = [0x69u8, 0x70u8, 0x63u8, 0x6fu8];

pub const IPMA: [u8; 4] = [0x69u8, 0x70u8, 0x6du8, 0x61u8];

pub const IREF: [u8; 4] = [0x69u8, 0x72u8, 0x65u8, 0x66u8];

pub const HDLR: [u8; 4] = [0x68u8, 0x64u8, 0x6cu8, 0x72u8];

pub const DINF: [u8; 4] = [0x64u8, 0x69u8, 0x6eu8, 0x66u8];

pub const GRPL: [u8; 4] = [0x67u8, 0x72u8, 0x70u8, 0x6cu8];

pub const ALTR: [u8; 4] = [0x61u8, 0x6cu8, 0x74u8, 0x72u8];

pub const IROT: [u8; 4] = [0x69u8, 0x72u8, 0x6fu8, 0x74u8];

pub const ISPE: [u8; 4] = [0x69u8, 0x73u8, 0x70u8, 0x65u8];

pub const CLLI: [u8; 4] = [0x63u8, 0x6cu8, 0x6cu8, 0x69u8];

pub const GRID: [u8; 4] = [0x67u8, 0x72u8, 0x69u8, 0x64u8];

pub const COLR: [u8; 4] = [0x63u8, 0x6fu8, 0x6cu8, 0x72u8];

pub const HVCC: [u8; 4] = [0x68u8, 0x76u8, 0x63u8, 0x43u8];

pub const AUXC: [u8; 4] = [0x61u8, 0x75u8, 0x78u8, 0x43u8];

pub const MOOV: [u8; 4] = [0x6du8, 0x6fu8, 0x6fu8, 0x76u8];

pub const MVHD: [u8; 4] = [0x6du8, 0x76u8, 0x68u8, 0x64u8];

pub const TRAK: [u8; 4] = [0x74u8, 0x72u8, 0x61u8, 0x6bu8];

pub const TKHD: [u8; 4] = [0x74u8, 0x6bu8, 0x68u8, 0x64u8];

pub const MDIA: [u8; 4] = [0x6du8, 0x64u8, 0x69u8, 0x61u8];

pub const MDHD: [u8; 4] = [0x6du8, 0x64u8, 0x68u8, 0x64u8];

pub const MINF: [u8; 4] = [0x6du8, 0x69u8, 0x6eu8, 0x66u8];

pub const STBL: [u8; 4] = [0x73u8, 0x74u8, 0x62u8, 0x6cu8];

pub const STTS: [u8; 4] = [0x73u8, 0x74u8, 0x74u8, 0x73u8];

pub const CTTS: [u8; 4] = [0x63u8, 0x74u8, 0x74u8, 0x73u8];

pub const STSD: [u8; 4] = [0x73u8, 0x74u8, 0x73u8, 0x64u8];

pub const STSC: [u8; 4] = [0x73u8, 0x74u8, 0x73u8, 0x63u8];

pub const STSZ: [u8; 4] = [0x73u8, 0x74u8, 0x73u8, 0x7au8];

pub const STCO: [u8; 4] = [0x73u8, 0x74u8, 0x63u8, 0x6fu8];

pub const CO64: [u8; 4] = [0x63u8, 0x6fu8, 0x36u8, 0x34u8];

pub const KEYS: [u8; 4] = [0x6bu8, 0x65u8, 0x79u8, 0x73u8];

pub const ILST: [u8; 4] = [0x69u8, 0x6cu8, 0x73u8, 0x74u8];

pub const DATA: [u8; 4] = [0x64u8, 0x61u8, 0x74u8, 0x61u8];

pub const FREE: [u8; 4] = [0x66u8, 0x72u8, 0x65u8, 0x65u8];

pub const EDTS: [u8; 4] = [0x65u8, 0x64u8, 0x74u8, 0x73u8];

pub const ELST: [u8; 4] = [0x65u8, 0x6cu8, 0x73u8, 0x74u8];

pub const GMHD: [u8; 4] = [0x67u8, 0x6du8, 0x68u8, 0x64u8];

pub const GMIN: [u8; 4] = [0x67u8, 0x6du8, 0x69u8, 0x6eu8];

pub const DREF: [u8; 4] = [0x64u8, 0x72u8, 0x65u8, 0x66u8];

pub const ALIS: [u8; 4] = [0x61u8, 0x6cu8, 0x69u8, 0x73u8];

pub const TREF: [u8; 4] = [0x74u8, 0x72u8, 0x65u8, 0x66u8];

pub const CDSC: [u8; 4] = [0x63u8, 0x64u8, 0x73u8, 0x63u8];

pub const MEBX: [u8; 4] = [0x6du8, 0x65u8, 0x62u8, 0x78u8];

pub const KEYD: [u8; 4] = [0x6bu8, 0x65u8, 0x79u8, 0x64u8];

pub const DTYP: [u8; 4] = [0x64u8, 0x74u8, 0x79u8, 0x70u8];

pub const MDTA: [u8; 4] = [0x6du8, 0x64u8, 0x74u8, 0x61u8];

/// Whether two four-character codes are the same.
pub fn same_tag(a: &[u8; 4], b: &[u8; 4]) -> (r: bool)
    ensures
        r == (a@ == b@),
{
    let r: bool = a[0] == b[0] && a[1] == b[1] && a[2] == b[2] && a[3] == b[3];
    proof {
        if r {
            assert(a@ =~= b@);
        }
    }
    r
}

} // verus!
