//! Statistics histories of the first-generation views.
use vstd::prelude::*;

use crate::appdata::spec_limited_push;
use crate::qmdrmdevices::{QmDrmDeviceFreqs, QmDrmDeviceInfo, QmDrmDeviceMemInfo};

verus! {

/// How many samples a history keeps.
pub const QM_APP_DATA_MAX_NR_STATS: usize = 10;

/// Appends `vitem` to the history `vlst`, dropping its oldest sample when it
/// already holds [`QM_APP_DATA_MAX_NR_STATS`].
pub fn limited_vec_push<T>(vlst: &mut Vec<T>, vitem: T)
    ensures
        final(vlst)@ == spec_limited_push(old(vlst)@, vitem, QM_APP_DATA_MAX_NR_STATS as nat),
{
    if vlst.len() == QM_APP_DATA_MAX_NR_STATS {
        let _ = vlst.remove(0);
        assert(vlst@ =~= old(vlst)@.skip(1));
    }
    vlst.push(vitem);
}

/// A device's frequency and memory histories.
#[derive(Debug)]
pub struct QmAppDataDeviceStats {
    pub freqs: Vec<QmDrmDeviceFreqs>,
    pub mem_info: Vec<QmDrmDeviceMemInfo>,
}

impl QmAppDataDeviceStats {
    /// Appends the device's current frequencies and memory to the histories.
    pub fn update_stats(&mut self, dinfo: &QmDrmDeviceInfo)
        ensures
            final(self).freqs@ == spec_limited_push(old(self).freqs@, dinfo.freqs, QM_APP_DATA_MAX_NR_STATS as nat),
            final(self).mem_info@ == spec_limited_push(old(self).mem_info@, dinfo.mem_info, QM_APP_DATA_MAX_NR_STATS as nat),
    {
        limited_vec_push(&mut self.freqs, dinfo.freqs);
        limited_vec_push(&mut self.mem_info, dinfo.mem_info);
    }

    pub fn new() -> (r: QmAppDataDeviceStats)
        ensures
            r.freqs@.len() == 0,
            r.mem_info@.len() == 0,
    {
        QmAppDataDeviceStats { freqs: Vec::new(), mem_info: Vec::new() }
    }
}

} // verus!
