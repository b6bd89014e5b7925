//! Patch codecs for the IPS, UPS and BPS binary patch formats.
//!
//! Given a *source* byte buffer and a *patch* byte buffer, each codec
//! reconstructs the *target* buffer; the IPS and BPS codecs can also build a
//! patch from a source and a target. All three codecs share one error
//! taxonomy and the CRC-32 checksum primitive.

use vstd::prelude::*;

mod bps;
mod bps_create;
mod bps_delta;
mod bps_linear;
mod crc;
mod ips;
mod suffix;
mod ups;
mod wire;

pub use crate::bps::BpsOutput;
pub use crate::bps::BpsPatch;
pub use crate::bps::bps_apply_spec;
pub use crate::bps_delta::BpsDeltaBuilder;
pub use crate::bps_linear::BpsLinearBuilder;
pub use crate::bps_linear::bps_linear_build_spec;
pub use crate::ips::IpsBuilder;
pub use crate::ips::IpsOutput;
pub use crate::ips::IpsPatch;
pub use crate::ips::IpsStudy;
pub use crate::ips::ips_apply_spec;
pub use crate::ips::ips_create_spec;
pub use crate::ips::ips_build_spec;
pub use crate::ips::ips_study_spec;
pub use crate::ups::UpsOutput;
pub use crate::ups::UpsPatch;
pub use crate::ups::ups_apply_spec;

pub use crate::crc::crc32;
pub use crate::crc::crc32_update;
pub use crate::crc::crc32_of;
pub use crate::crc::crc32_update_of;

pub use crate::bps::bps_actions;
pub use crate::bps::bps_apply_body;
pub use crate::bps::bps_self_copy;
pub use crate::bps::lemma_bps_patch_flip;
pub use crate::bps::lemma_bps_wrong_input;
pub use crate::bps_create::BpsActionS;
pub use crate::bps_create::bps_patch_bytes;
pub use crate::bps_create::enc_action;
pub use crate::bps_create::enc_actions;
pub use crate::bps_create::run_list;
pub use crate::bps_create::step_action;
pub use crate::bps_create::svli_of;
pub use crate::bps_create::wf_action;
pub use crate::bps_delta::bps_delta_build_err;
pub use crate::bps_linear::bps_linear_actions;
pub use crate::bps_linear::meta_or_empty;
pub use crate::bps_linear::prefix_len;
pub use crate::bps_linear::suffix_len;
pub use crate::ips::IpsState;
pub use crate::ips::be16;
pub use crate::ips::be16_bytes;
pub use crate::ips::be24;
pub use crate::ips::be24_bytes;
pub use crate::ips::ips_at;
pub use crate::ips::ips_chunks;
pub use crate::ips::ips_extent_of;
pub use crate::ips::ips_hunk_bytes;
pub use crate::ips::ips_hunks;
pub use crate::ips::ips_hunks_bytes;
pub use crate::ips::ips_init;
pub use crate::ips::ips_needs;
pub use crate::ips::ips_region_unchanged;
pub use crate::ips::ips_run_end;
pub use crate::ips::ips_scrambled_total;
pub use crate::ips::ips_skip;
pub use crate::ips::ips_step;
pub use crate::ips::ips_truncated;
pub use crate::ips::ips_write;
pub use crate::ips::lemma_ips_round_trip;
pub use crate::ups::lemma_ups_symmetry;
pub use crate::ups::ups_apply_sized;
pub use crate::ups::ups_header;
pub use crate::ups::ups_matches_source;
pub use crate::ups::ups_records;
pub use crate::ups::ups_source_fits;
pub use crate::ups::ups_xor_run;
pub use crate::ups::zero_ext;
pub use crate::wire::le32;
pub use crate::wire::le32_bytes;
pub use crate::wire::vli_decode;
pub use crate::wire::vli_encode;

verus! {

/// The error type for this crate.
#[derive(Clone, Debug, PartialEq, Eq, Structural)]
pub enum Error {
    /// Attempted to apply a patch not made for the input.
    NotThis,
    /// Attempted to apply a patch to the output it produces.
    ToOutput,
    /// The patch is invalid or malformed.
    Invalid,
    /// The patch is technically valid, but seems scrambled.
    Scrambled,
    /// Attempted to create a patch from identical buffers.
    Identical,
    /// A declared size exceeds what this host can address.
    TooBig,
    /// Memory allocation failed; also signals IPS size overflow.
    OutOfMem,
    /// Patch creation was canceled.
    Canceled,
}

/// The result type for this crate.
pub type Result<T> = core::result::Result<T, Error>;

/// A slice of memory owned by a codec.
///
/// Each patch format wraps this type in its own output struct.
#[derive(Debug)]
pub struct FlipsMemory {
    mem: Vec<u8>,
}

impl View for FlipsMemory {
    type V = Seq<u8>;

    closed spec fn view(&self) -> Seq<u8> {
        self.mem@
    }
}

impl FlipsMemory {
    /// Wrap a byte buffer.
    pub(crate) fn new(mem: Vec<u8>) -> (r: Self)
        ensures
            r@ == mem@,
    {
        Self { mem }
    }

    /// View the memory buffer as a slice of bytes.
    pub fn as_bytes(&self) -> (r: &[u8])
        ensures
            r@ == self@,
    {
        self.mem.as_slice()
    }

    /// Copy the memory into a fresh buffer.
    pub fn to_bytes(&self) -> (r: Vec<u8>)
        ensures
            r@ == self@,
    {
        let mut out: Vec<u8> = Vec::new();
        out.extend_from_slice(self.mem.as_slice());
        out
    }
}

} // verus!
