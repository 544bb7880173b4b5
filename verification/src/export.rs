//! Export of one session: a recording is a file name derived from the
//! session start time together with the CSV bytes of the sample log.

use crate::codec::csv_encoding;
use crate::codec::to_csv;
use crate::naming::civil_decomposition;
use crate::naming::civil_millis;
use crate::naming::name_for;
use crate::naming::spec_recording_name;
use crate::sample_log::SampleLog;
use crate::storage::is_valid_recording_name;
use vstd::prelude::*;

verus! {

/// Build the recording of the current session: the file name derived from
/// the session start time, and the CSV bytes of exactly the samples held,
/// in order. Deterministic: both parts are functions of the start time and
/// the samples alone, and the name always passes the library's validation.
pub fn prepare_file(log: &SampleLog) -> (r: (String, Vec<u8>))
    requires
        log.start_time().wf(),
    ensures
        r.1@ == csv_encoding(log@),
        r.0@ == spec_recording_name(civil_decomposition(log.start_time().millis as int)),
        is_valid_recording_name(r.0@),
        civil_decomposition(log.start_time().millis as int).wf(),
        civil_millis(civil_decomposition(log.start_time().millis as int)) == log.start_time().millis as int,
{
    let start = log.session_start();
    let name = name_for(&start);
    let samples = log.snapshot();
    let data = to_csv(&samples);
    (name, data)
}

} // verus!
