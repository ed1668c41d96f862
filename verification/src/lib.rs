//! Raw NTFS metadata decoding and inventory construction.
//!
//! The crate decodes the on-disk structures of an NTFS volume — the boot
//! sector, the multi-sector fixup scheme, attribute run lists, and MFT file
//! records — and aggregates the decoded records into a path-keyed inventory
//! of files and directories annotated with logical and allocated sizes.
//! All decoding works on plain byte buffers; reading those buffers from a
//! device is the caller's concern.

pub mod boot;
pub mod err;
pub mod fixup;
pub mod inventory;
pub mod lebytes;
pub mod paths;
pub mod record;
pub mod runs;
