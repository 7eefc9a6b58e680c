//! Device numbers and file modes as Linux encodes them, read through `libc`.
use vstd::prelude::*;

verus! {

/// The major number that glibc's `major()` takes from a 64-bit device
/// number: bits 8..20 and 44..64.
pub open spec fn spec_dev_major(dev: u64) -> u32 {
    (((dev & 0xfff00u64) >> 8u64) | ((dev & 0xffff_f000_0000_0000u64) >> 32u64)) as u32
}

/// The minor number that glibc's `minor()` takes from a 64-bit device
/// number: bits 0..8 and 20..44.
pub open spec fn spec_dev_minor(dev: u64) -> u32 {
    ((dev & 0xffu64) | ((dev & 0x0000_0fff_fff0_0000u64) >> 12u64)) as u32
}

/// Calls `libc::major`, which on Linux computes [`spec_dev_major`] from the
/// device number and nothing else.
#[verifier::external_body]
pub(crate) fn dev_major(dev: u64) -> (r: u32)
    ensures
        r == spec_dev_major(dev),
{
    libc::major(dev)
}

/// Calls `libc::minor`, which on Linux computes [`spec_dev_minor`] from the
/// device number and nothing else.
#[verifier::external_body]
pub(crate) fn dev_minor(dev: u64) -> (r: u32)
    ensures
        r == spec_dev_minor(dev),
{
    libc::minor(dev)
}

/// Reads `libc::S_IFMT`, the mask of the file-type bits of a mode
/// (`0o170000` on Linux).
#[verifier::external_body]
pub(crate) fn file_type_mask() -> (r: u32)
    ensures
        r == 0o170000,
{
    libc::S_IFMT
}

/// Reads `libc::S_IFCHR`, the file type of a character device
/// (`0o020000` on Linux).
#[verifier::external_body]
pub(crate) fn char_device_type() -> (r: u32)
    ensures
        r == 0o020000,
{
    libc::S_IFCHR
}

/// Major number of the DRM character devices.
pub const DRM_MAJOR: u32 = 226;

/// Whether a file of mode `mode` and device number `rdev` is a DRM character
/// device.
pub open spec fn spec_is_drm_char_dev(mode: u32, rdev: u64) -> bool {
    (mode & 0o170000u32) == 0o020000u32 && spec_dev_major(rdev) == 226
}

/// Whether a file of mode `mode` and device number `rdev` is a DRM character
/// device, and then its minor number.
pub fn drm_char_dev_minor(mode: u32, rdev: u64) -> (r: Option<u32>)
    ensures
        r == (if spec_is_drm_char_dev(mode, rdev) {
            Some(spec_dev_minor(rdev))
        } else {
            None::<u32>
        }),
{
    let mj = dev_major(rdev);
    if (mode & file_type_mask()) == char_device_type() && mj == DRM_MAJOR {
        Some(dev_minor(rdev))
    } else {
        None
    }
}

} // verus!
