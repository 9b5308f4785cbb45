use vstd::prelude::*;

verus! {

/// Header of an exported analysis: the analysed video, when the export was
/// made, and the program version.
#[derive(Debug)]
pub struct ExportMetadata {
    pub video_path: String,
    pub export_time: String,
    pub version: String,
}

impl ExportMetadata {
    /// Export header from its parts.
    pub fn new(video_path: &str, export_time: String, version: &str) -> (r: ExportMetadata)
        ensures
            r.video_path@ == video_path@,
            r.export_time == export_time,
            r.version@ == version@,
    {
        ExportMetadata {
            video_path: String::from_str(video_path),
            export_time,
            version: String::from_str(version),
        }
    }
}

} // verus!
