//! The run's options, and the decisions that follow from them.
use vstd::prelude::*;
use crate::filename::{destination_ext, file_name_with};
use crate::model::OsuBeatmapInfoHolderSimple;
use crate::paths::join_path;

verus! {

/// The options of one run.
pub struct CliArguments {
    /// File name template: `%a` artist, `%t` title, `%i` set id.
    pub filename_template: String,
    pub osu_source: String,
    pub songs_destination: String,
    /// Name files by the Unicode pair rather than the ASCII one.
    pub unicode_filename: bool,
    /// Remove destination files that no record writes, and write every
    /// record again.
    pub remove_missing_songs: bool,
    pub skip_bitmap: bool,
    pub skip_info: bool,
    /// Keep duplicate songs.
    pub duplicated: bool,
    /// Re-encode quality 0 to 9; any other value copies the audio as it is.
    pub compress: i8,
}

impl CliArguments {
    /// Whether audio is re-encoded as MP3 rather than copied.
    pub fn compressing(&self) -> (r: bool)
        ensures
            r == (0 <= self.compress <= 9),
    {
        self.compress >= 0 && self.compress <= 9
    }

    /// Whether a record is written, given whether its destination exists.
    pub fn should_write(&self, destination_exists: bool) -> (r: bool)
        ensures
            r == (!destination_exists || self.remove_missing_songs),
    {
        !destination_exists || self.remove_missing_songs
    }
}

/// The destination paths of `records` under `destination`, with the
/// extension `mp3` when audio is re-encoded.
pub fn destination_paths(
    records: &Vec<OsuBeatmapInfoHolderSimple>,
    destination: &str,
    template: &str,
    compressing: bool,
) -> (r: Vec<String>)
    ensures
        r@.len() == records@.len(),
        forall|k: int|
            0 <= k < r@.len() ==> (#[trigger] r@[k])@ == join_path(
                destination@,
                file_name_with(records@[k], template@, destination_ext(records@[k], compressing)),
            ),
{
    let mut out: Vec<String> = Vec::new();
    for i in 0..records.len()
        invariant
            out@.len() == i,
            forall|k: int|
                0 <= k < i ==> (#[trigger] out@[k])@ == join_path(
                    destination@,
                    file_name_with(records@[k], template@, destination_ext(records@[k], compressing)),
                ),
    {
        out.push(records[i].destination_path(destination, template, compressing));
    }
    out
}

} // verus!
