//! The legacy source format: numbered set folders of text beatmaps.
use vstd::prelude::*;
use crate::beatmap_text::parse_beatmap;
use crate::model::{
    ExtractedView, OsuBeatmapInfoExtracted, OsuBeatmapInfoHolder, SourceError, ascii_only,
    lemma_true_indices_bounds, lemma_true_indices_complete, opt_view, true_indices,
};
use crate::paths::{
    extension_of, file_name, file_name_of, is_directory, is_regular_file, join, join_path,
    lower_ext, lower_extension,
};
use crate::numbers::{parse_u64, parse_u64_chars};
use crate::text::{chars_of, string_of};

verus! {

/// The characters of `s` before its first `c`.
pub open spec fn before_char(s: Seq<char>, c: char) -> Seq<char>
    decreases s.len(),
{
    if s.len() == 0 || s[0] == c {
        Seq::empty()
    } else {
        seq![s[0]] + before_char(s.drop_first(), c)
    }
}

/// The set id of a set folder: the number before the first space of its name.
pub open spec fn folder_set_id(folder: Seq<char>) -> Option<u64> {
    parse_u64(before_char(file_name_of(folder), ' '))
}

fn before_space(s: &Vec<char>) -> (r: Vec<char>)
    ensures
        r@ == before_char(s@, ' '),
{
    let mut out: Vec<char> = Vec::new();
    let mut i: usize = 0;
    assert(s@.subrange(0, s@.len() as int) == s@);
    while i < s.len() && s[i] != ' '
        invariant
            i <= s.len(),
            before_char(s@, ' ') == out@ + before_char(s@.subrange(i as int, s@.len() as int), ' '),
        decreases s.len() - i,
    {
        let ghost rest = s@.subrange(i as int, s@.len() as int);
        assert(rest.drop_first() == s@.subrange(i + 1, s@.len() as int));
        assert(out@.push(s@[i as int]) + before_char(rest.drop_first(), ' ') =~= out@ + (seq![rest[0]]
            + before_char(rest.drop_first(), ' ')));
        out.push(s[i]);
        i = i + 1;
    }
    assert(before_char(s@.subrange(i as int, s@.len() as int), ' ') =~= Seq::<char>::empty());
    assert(out@ + Seq::<char>::empty() =~= out@);
    out
}

/// The set id of the set folder `folder`.
pub fn folder_beatmapset_id(folder: &str) -> (r: Option<u64>)
    ensures
        r == folder_set_id(folder@),
{
    let name = file_name(folder);
    let chars = chars_of(name.as_str());
    let token = before_space(&chars);
    parse_u64_chars(&token)
}

/// A beatmap file of the legacy format: one with the extension `osu`.
pub open spec fn is_beatmap_path(path: Seq<char>) -> bool {
    extension_of(path) == Some(seq!['o', 's', 'u'])
}

/// Whether `path` names a beatmap file of the legacy format.
pub fn is_beatmap_file(path: &str) -> (r: bool)
    ensures
        r == is_beatmap_path(path@),
{
    match crate::paths::extension(path) {
        Some(e) => {
            let osu = string_of(&vec!['o', 's', 'u']);
            e == osu
        },
        None => false,
    }
}

pub open spec fn songs_name() -> Seq<char> {
    seq!['S', 'o', 'n', 'g', 's']
}

/// Reader of a legacy root: its `Songs` folder.
pub struct Osu40BeatmapSetsReader {
    pub beatmapsets_folder: String,
}

/// One set folder of a legacy root.
pub struct Osu40BeatmapSet {
    pub beatmap_folder: String,
}

impl Osu40BeatmapSetsReader {
    /// Recognizes a legacy root: a directory that holds a `Songs` directory.
    pub fn try_from_root(path: &str) -> (r: Result<Self, SourceError>)
        ensures
            r matches Ok(x) ==> x.beatmapsets_folder@ == join_path(path@, songs_name()),
            r matches Err(e) ==> e == SourceError::NotADirectory || e == SourceError::MissingSongs,
    {
        if !is_directory(path) {
            return Err(SourceError::NotADirectory);
        }
        let songs = string_of(&vec!['S', 'o', 'n', 'g', 's']);
        let songs_path = join(path, songs.as_str());
        if !is_directory(songs_path.as_str()) {
            return Err(SourceError::MissingSongs);
        }
        Ok(Osu40BeatmapSetsReader { beatmapsets_folder: songs_path })
    }

    /// The set folders among `entries`, the paths found in the `Songs`
    /// folder: the directories whose name starts with a set id, in order.
    pub fn beatmap_sets(&self, entries: &Vec<String>) -> (r: Vec<Osu40BeatmapSet>)
        ensures
            set_folders_for_some_outcome(r@, entries@),
    {
        let mut out: Vec<Osu40BeatmapSet> = Vec::new();
        let ghost mut is_dir: Seq<bool> = Seq::empty();
        let ghost mut kept: Seq<bool> = Seq::empty();
        let mut i: usize = 0;
        while i < entries.len()
            invariant
                i <= entries.len(),
                is_dir.len() == i,
                kept.len() == i,
                forall|j: int| 0 <= j < i ==> #[trigger] kept[j] == (is_dir[j] && folder_set_id(entries@[j]@) is Some),
                out@.len() == true_indices(kept).len(),
                forall|k: int| 0 <= k < out@.len() ==> (#[trigger] out@[k]).beatmap_folder == entries@[true_indices(kept)[k]],
            decreases entries.len() - i,
        {
            let ghost before = kept;
            let path = &entries[i];
            let d = is_directory(path.as_str());
            let keep = d && folder_beatmapset_id(path.as_str()).is_some();
            if keep {
                out.push(Osu40BeatmapSet { beatmap_folder: path.clone() });
            }
            proof {
                is_dir = is_dir.push(d);
                kept = kept.push(keep);
                assert(kept.drop_last() == before);
                let t = true_indices(kept);
                assert forall|k: int| 0 <= k < out@.len() implies (#[trigger] out@[k]).beatmap_folder == entries@[t[k]] by {
                    if k < true_indices(before).len() {
                        assert(t[k] == true_indices(before)[k]);
                    }
                }
            }
            i = i + 1;
        }
        assert(kept =~= Seq::new(entries@.len(), |j: int| is_dir[j] && folder_set_id(entries@[j]@) is Some));
        assert(set_folders(out@, entries@, is_dir));
        out
    }
}

/// `r` are the set folders among `entries` when each entry is a directory or
/// not (`is_dir`): the directories whose name starts with a set id, in order.
pub open spec fn set_folders(r: Seq<Osu40BeatmapSet>, entries: Seq<String>, is_dir: Seq<bool>) -> bool {
    let keep = true_indices(
        Seq::new(entries.len(), |j: int| is_dir[j] && folder_set_id(entries[j]@) is Some),
    );
    &&& is_dir.len() == entries.len()
    &&& r.len() == keep.len()
    &&& forall|k: int| 0 <= k < r.len() ==> (#[trigger] r[k]).beatmap_folder == entries[keep[k]]
}

/// `r` are the set folders among `entries` for some outcome of the checks on
/// disk.
pub open spec fn set_folders_for_some_outcome(r: Seq<Osu40BeatmapSet>, entries: Seq<String>) -> bool {
    exists|is_dir: Seq<bool>| set_folders(r, entries, is_dir)
}

/// The ASCII pair of a parsed beatmap: the one it gives, or else its only
/// pair with the non-ASCII characters removed.
pub open spec fn ascii_pair(x: ExtractedView) -> (Seq<char>, Seq<char>) {
    match x.0 {
        Some(a) => a,
        None => (ascii_only(x.1.0), ascii_only(x.1.1)),
    }
}

/// `h` is the record of the beatmap file `path` of the set folder `folder`
/// with set id `set_id`, whose metadata is `x`; `background_found` tells
/// whether its background image was found on disk.
pub open spec fn is_classic_record(
    h: OsuBeatmapInfoHolder,
    folder: Seq<char>,
    set_id: u64,
    path: Seq<char>,
    x: ExtractedView,
    background_found: bool,
) -> bool {
    let audio = join_path(folder, x.3);
    &&& h.ascii@ == ascii_pair(x)
    &&& h.unicode@ == x.1
    &&& h.beatmapset_id == set_id
    &&& h.audio@ == audio
    &&& h.beatmap@ == path
    &&& opt_view(h.extensions.0) == lower_ext(audio)
    &&& if background_found && x.2 is Some {
        let bg = join_path(folder, x.2->0);
        opt_view(h.background) == Some(bg) && opt_view(h.extensions.1) == lower_ext(bg)
    } else {
        h.background is None && h.extensions.1 is None
    }
}

impl Osu40BeatmapSet {
    /// The set id of this folder.
    pub fn beatmapset_id(&self) -> (r: Option<u64>)
        ensures
            r == folder_set_id(self.beatmap_folder@),
    {
        folder_beatmapset_id(self.beatmap_folder.as_str())
    }

    /// The record of one parsed beatmap file, given whether its audio file
    /// and its background image exist: none without the audio file.
    pub fn record_with(
        &self,
        set_id: u64,
        path: &String,
        x: &OsuBeatmapInfoExtracted,
        audio_found: bool,
        background_found: bool,
    ) -> (r: Option<OsuBeatmapInfoHolder>)
        ensures
            r is None <==> !audio_found,
            r matches Some(h) ==> is_classic_record(
                h,
                self.beatmap_folder@,
                set_id,
                path@,
                x@,
                background_found,
            ),
    {
        if !audio_found {
            return None;
        }
        let folder = self.beatmap_folder.as_str();
        let audio = join(folder, x.audio.as_str());
        let (background, background_ext) = match &x.background {
            Some(name) => {
                if background_found {
                    let bg = join(folder, name.as_str());
                    let ext = lower_extension(bg.as_str());
                    (Some(bg), ext)
                } else {
                    (None, None)
                }
            },
            None => (None, None),
        };
        let ascii = match &x.ascii_opt {
            Some(a) => a.clone(),
            None => x.unicode.filter_ascii(),
        };
        let audio_ext = lower_extension(audio.as_str());
        Some(OsuBeatmapInfoHolder {
            ascii,
            unicode: x.unicode.clone(),
            beatmapset_id: set_id,
            background,
            audio,
            beatmap: path.clone(),
            extensions: (audio_ext, background_ext),
        })
    }

    /// The records of the beatmap files of this folder, in the order of
    /// `files`, which pairs the path of each file with its text, or with none
    /// where it could not be read. Files without the extension `osu`, files
    /// that cannot be read or parsed, and beatmaps whose audio file is missing,
    /// are skipped; none at all when the folder name holds no set id.
    pub fn beatmaps(&self, files: &Vec<(String, Option<String>)>) -> (r: Vec<OsuBeatmapInfoHolder>)
        ensures
            classic_records_for_some_outcome(r@, self.beatmap_folder@, files@),
    {
        let set_id = match self.beatmapset_id() {
            Some(id) => id,
            None => {
                assert(classic_records(Seq::empty(), self.beatmap_folder@, files@, Seq::empty(), Seq::empty()));
                return Vec::new();
            },
        };
        let folder = self.beatmap_folder.as_str();
        let mut out: Vec<OsuBeatmapInfoHolder> = Vec::new();
        let ghost mut audio_found: Seq<bool> = Seq::empty();
        let ghost mut background_found: Seq<bool> = Seq::empty();
        let ghost mut kept: Seq<bool> = Seq::empty();
        let mut i: usize = 0;
        while i < files.len()
            invariant
                i <= files.len(),
                folder@ == self.beatmap_folder@,
                folder_set_id(self.beatmap_folder@) == Some(set_id),
                audio_found.len() == i,
                background_found.len() == i,
                kept.len() == i,
                forall|j: int| 0 <= j < i ==> #[trigger] kept[j] == (file_parses(files@[j]) && audio_found[j]),
                out@.len() == true_indices(kept).len(),
                forall|k: int|
                    0 <= k < out@.len() ==> is_classic_record(
                        #[trigger] out@[k],
                        self.beatmap_folder@,
                        set_id,
                        files@[true_indices(kept)[k]].0@,
                        parse_beatmap(files@[true_indices(kept)[k]].1->0@)->Ok_0,
                        background_found[true_indices(kept)[k]],
                    ),
            decreases files.len() - i,
        {
            let ghost before = kept;
            let mut a = false;
            let mut b = false;
            let mut record: Option<OsuBeatmapInfoHolder> = None;
            let content = if is_beatmap_file(files[i].0.as_str()) {
                &files[i].1
            } else {
                &None
            };
            match content {
                Some(text) => {
                    let parsed = OsuBeatmapInfoExtracted::parse(text.as_str());
                    match parsed {
                        Ok(x) => {
                            let audio = join(folder, x.audio.as_str());
                            a = is_regular_file(audio.as_str());
                            b = match &x.background {
                                Some(name) => {
                                    let bg = join(folder, name.as_str());
                                    is_regular_file(bg.as_str())
                                },
                                None => false,
                            };
                            record = self.record_with(set_id, &files[i].0, &x, a, b);
                        },
                        Err(_) => {},
                    }
                },
                None => {},
            }
            proof {
                audio_found = audio_found.push(a);
                background_found = background_found.push(b);
                kept = kept.push(file_parses(files@[i as int]) && a);
                assert(kept.drop_last() == before);
                assert(record is Some <==> kept.last());
            }
            match record {
                Some(h) => {
                    out.push(h);
                },
                None => {},
            }
            proof {
                let t = true_indices(kept);
                assert forall|k: int| 0 <= k < out@.len() implies is_classic_record(
                    #[trigger] out@[k],
                    self.beatmap_folder@,
                    set_id,
                    files@[t[k]].0@,
                    parse_beatmap(files@[t[k]].1->0@)->Ok_0,
                    background_found[t[k]],
                ) by {
                    lemma_true_indices_bounds(before);
                    if k < true_indices(before).len() {
                        assert(t[k] == true_indices(before)[k]);
                        assert(background_found[t[k]] == background_found.drop_last()[t[k]]);
                    }
                }
            }
            i = i + 1;
        }
        assert(kept =~= Seq::new(files@.len(), |j: int| file_parses(files@[j]) && audio_found[j]));
        assert(classic_records(out@, self.beatmap_folder@, files@, audio_found, background_found));
        out
    }
}

/// `file` is a beatmap file by its extension, could be read, and parses.
pub open spec fn file_parses(file: (String, Option<String>)) -> bool {
    is_beatmap_path(file.0@) && file.1 is Some && parse_beatmap(file.1->0@) is Ok
}

/// `r` are the records of the set folder `folder` for `files` when each
/// file's audio was found or not (`audio_found`) and its background was found
/// or not (`background_found`): one per file with the extension `osu` that
/// parses and whose audio was found, in order.
pub open spec fn classic_records(
    r: Seq<OsuBeatmapInfoHolder>,
    folder: Seq<char>,
    files: Seq<(String, Option<String>)>,
    audio_found: Seq<bool>,
    background_found: Seq<bool>,
) -> bool {
    if folder_set_id(folder) is None {
        r.len() == 0
    } else {
        let keep = true_indices(
            Seq::new(files.len(), |j: int| file_parses(files[j]) && audio_found[j]),
        );
        &&& audio_found.len() == files.len()
        &&& background_found.len() == files.len()
        &&& r.len() == keep.len()
        &&& forall|k: int|
            0 <= k < r.len() ==> is_classic_record(
                #[trigger] r[k],
                folder,
                folder_set_id(folder)->0,
                files[keep[k]].0@,
                parse_beatmap(files[keep[k]].1->0@)->Ok_0,
                background_found[keep[k]],
            )
    }
}

/// `r` are the records of the set folder `folder` for some outcome of the
/// checks on disk.
pub open spec fn classic_records_for_some_outcome(
    r: Seq<OsuBeatmapInfoHolder>,
    folder: Seq<char>,
    files: Seq<(String, Option<String>)>,
) -> bool {
    exists|audio_found: Seq<bool>, background_found: Seq<bool>|
        classic_records(r, folder, files, audio_found, background_found)
}


/// A folder scan keeps exactly the beatmap files that parse and whose audio
/// was found: every record comes from a file with the extension `osu` that
/// parses, carries that file's path and the folder's set id, and every such
/// file whose audio was found gives a record. A malformed file gives none and
/// takes none of the others away.
pub proof fn lemma_scan_keeps_parsing_files(
    r: Seq<OsuBeatmapInfoHolder>,
    folder: Seq<char>,
    files: Seq<(String, Option<String>)>,
    audio_found: Seq<bool>,
    background_found: Seq<bool>,
)
    requires
        classic_records(r, folder, files, audio_found, background_found),
        folder_set_id(folder) is Some,
    ensures
        forall|k: int|
            0 <= k < r.len() ==> exists|j: int|
                0 <= j < files.len() && file_parses(files[j]) && (#[trigger] r[k]).beatmap@ == files[j].0@
                    && r[k].beatmapset_id == folder_set_id(folder)->0,
        forall|j: int|
            0 <= j < files.len() && file_parses(#[trigger] files[j]) && audio_found[j] ==> exists|k: int|
                0 <= k < r.len() && r[k].beatmap@ == files[j].0@,
{
    let flags = Seq::new(files.len(), |j: int| file_parses(files[j]) && audio_found[j]);
    let keep = true_indices(flags);
    lemma_true_indices_bounds(flags);
    assert forall|k: int| 0 <= k < r.len() implies exists|j: int|
        0 <= j < files.len() && file_parses(files[j]) && (#[trigger] r[k]).beatmap@ == files[j].0@
            && r[k].beatmapset_id == folder_set_id(folder)->0 by {
        let j = keep[k];
        assert(flags[j]);
    }
    assert forall|j: int| 0 <= j < files.len() && file_parses(#[trigger] files[j]) && audio_found[j] implies exists|k: int|
        0 <= k < r.len() && r[k].beatmap@ == files[j].0@ by {
        assert(flags[j]);
        lemma_true_indices_complete(flags, j);
        let k = choose|k: int| 0 <= k < keep.len() && keep[k] == j;
        assert(r[k].beatmap@ == files[j].0@);
    }
}

} // verus!
