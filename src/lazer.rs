//! The database source format: a catalog of sets over a content-addressed
//! blob store.
use vstd::prelude::*;
use crate::model::{
    BasicSongInfo, OsuBeatmapInfoHolder, SourceError, ascii_only, clone_opt_string,
    lemma_true_indices_bounds, opt_view, true_indices,
};
use crate::paths::{is_directory, is_regular_file, join, join_path, lower_ext, lower_extension};
use crate::text::{chars_of, string_of};

verus! {

/// The first `n` characters of `h`, or all of them if it is shorter.
pub open spec fn prefix(h: Seq<char>, n: int) -> Seq<char> {
    if h.len() <= n {
        h
    } else {
        h.take(n)
    }
}

/// Where the blob with content hash `hash` lies under `folder`: a directory
/// named by its first character, in it one named by its first two, in it the
/// file named by the whole hash.
pub open spec fn blob_path(folder: Seq<char>, hash: Seq<char>) -> Seq<char> {
    join_path(join_path(join_path(folder, prefix(hash, 1)), prefix(hash, 2)), hash)
}

/// Why a content hash does not resolve.
#[derive(PartialEq, Eq, Structural, Clone, Copy, Debug)]
pub enum ResolveError {
    /// No regular file stands at the hash's blob path.
    NotAHashedFile,
}

/// Maps content hashes to blob paths under the store's `files` folder.
pub struct Osu50HashResolver {
    pub folder: String,
}

fn prefix_string(h: &Vec<char>, n: usize) -> (r: String)
    ensures
        r@ == prefix(h@, n as int),
{
    let mut out: Vec<char> = Vec::new();
    let mut i: usize = 0;
    while i < n && i < h.len()
        invariant
            i <= h.len(),
            i <= n,
            out@ == h@.subrange(0, i as int),
        decreases h.len() - i,
    {
        out.push(h[i]);
        assert(h@.subrange(0, i + 1) == h@.subrange(0, i as int).push(h@[i as int]));
        i = i + 1;
    }
    assert(h@.len() <= n ==> h@.subrange(0, i as int) == h@);
    string_of(&out)
}

pub open spec fn files_name() -> Seq<char> {
    seq!['f', 'i', 'l', 'e', 's']
}

pub open spec fn client_db_name() -> Seq<char> {
    seq!['c', 'l', 'i', 'e', 'n', 't', '.', 'd', 'b']
}

impl Osu50HashResolver {
    /// The blob path of `hash`, whether or not a file stands there.
    pub fn hashed_path(&self, hash: &str) -> (r: String)
        ensures
            r@ == blob_path(self.folder@, hash@),
    {
        let h = chars_of(hash);
        let first = prefix_string(&h, 1);
        let first_two = prefix_string(&h, 2);
        let a = join(self.folder.as_str(), first.as_str());
        let b = join(a.as_str(), first_two.as_str());
        join(b.as_str(), hash)
    }

    /// The blob path of `hash` if a regular file stands there.
    pub fn resolve(&self, hash: &str) -> (r: Result<String, ResolveError>)
        ensures
            r matches Ok(p) ==> p@ == blob_path(self.folder@, hash@),
    {
        let p = self.hashed_path(hash);
        if is_regular_file(p.as_str()) {
            Ok(p)
        } else {
            Err(ResolveError::NotAHashedFile)
        }
    }

    /// Recognizes a database root: a directory that holds a `files` directory
    /// and a `client.db` file. Gives the resolver of the blob store and the
    /// path of the catalog.
    pub fn try_from_root(path: &str) -> (r: Result<(Self, String), SourceError>)
        ensures
            r matches Ok(x) ==> x.0.folder@ == join_path(path@, files_name()) && x.1@ == join_path(
                path@,
                client_db_name(),
            ),
            r matches Err(e) ==> e == SourceError::NotADirectory || e == SourceError::MissingFiles
                || e == SourceError::MissingClientDb,
    {
        if !is_directory(path) {
            return Err(SourceError::NotADirectory);
        }
        let files = string_of(&vec!['f', 'i', 'l', 'e', 's']);
        let files_path = join(path, files.as_str());
        if !is_directory(files_path.as_str()) {
            return Err(SourceError::MissingFiles);
        }
        let client = string_of(&vec!['c', 'l', 'i', 'e', 'n', 't', '.', 'd', 'b']);
        let client_path = join(path, client.as_str());
        if !is_regular_file(client_path.as_str()) {
            return Err(SourceError::MissingClientDb);
        }
        Ok((Osu50HashResolver { folder: files_path }, client_path))
    }
}

/// One row of the catalog's list of sets: id, title and artist, the Unicode
/// pair, and the file name and content hash of the background and the audio.
pub struct Osu50BeatmapSetDbListingItem {
    pub id: i64,
    pub title: String,
    pub artist: String,
    pub title_unicode: Option<String>,
    pub artist_unicode: Option<String>,
    pub background: (Option<String>, Option<String>),
    pub audio: (Option<String>, Option<String>),
}

/// One row of the catalog's list of the beatmaps of a set.
pub struct Osu50BeatmapDbListingItem {
    pub set_id: i64,
    pub id: i64,
    pub path: String,
    pub hash: String,
}

/// One set of a database root.
pub struct Osu50BeatmapSet {
    pub hash_resolver: Osu50HashResolver,
    pub beatmapset_db_info: Osu50BeatmapSetDbListingItem,
}

/// The ASCII pair of a catalog set: its plain pair when a Unicode pair stands
/// beside it, else its plain pair without non-ASCII characters.
pub open spec fn set_ascii(i: Osu50BeatmapSetDbListingItem) -> (Seq<char>, Seq<char>) {
    if i.title_unicode is Some && i.artist_unicode is Some {
        (i.title@, i.artist@)
    } else {
        (ascii_only(i.title@), ascii_only(i.artist@))
    }
}

/// The Unicode pair of a catalog set, which is its plain pair when it has no
/// Unicode pair of its own.
pub open spec fn set_unicode(i: Osu50BeatmapSetDbListingItem) -> (Seq<char>, Seq<char>) {
    if i.title_unicode is Some && i.artist_unicode is Some {
        (i.title_unicode->0@, i.artist_unicode->0@)
    } else {
        (i.title@, i.artist@)
    }
}

/// The lower-cased extension of a file name, if there is a name.
pub open spec fn name_ext(name: Option<String>) -> Option<Seq<char>> {
    match name {
        Some(n) => lower_ext(n@),
        None => None,
    }
}

/// `h` is a record of the set `i` with audio file `audio`, background image
/// `background` and beatmap file `beatmap`.
pub open spec fn is_lazer_record(
    h: OsuBeatmapInfoHolder,
    i: Osu50BeatmapSetDbListingItem,
    audio: Seq<char>,
    background: Option<Seq<char>>,
    beatmap: Seq<char>,
) -> bool {
    &&& h.ascii@ == set_ascii(i)
    &&& h.unicode@ == set_unicode(i)
    &&& h.beatmapset_id == i.id as u64
    &&& opt_view(h.background) == background
    &&& h.audio@ == audio
    &&& h.beatmap@ == beatmap
    &&& opt_view(h.extensions.0) == name_ext(i.audio.0)
    &&& opt_view(h.extensions.1) == name_ext(i.background.0)
}

fn lower_name_ext(name: &Option<String>) -> (r: Option<String>)
    ensures
        opt_view(r) == name_ext(*name),
{
    match name {
        Some(n) => lower_extension(n.as_str()),
        None => None,
    }
}

impl Osu50BeatmapSet {
    /// The record of this set for one beatmap file, given the paths that its
    /// audio, its background and the beatmap resolved to.
    pub fn record_for(&self, audio: &String, background: &Option<String>, beatmap: String) -> (r:
        OsuBeatmapInfoHolder)
        ensures
            is_lazer_record(r, self.beatmapset_db_info, audio@, opt_view(*background), beatmap@),
    {
        let info = &self.beatmapset_db_info;
        let plain = BasicSongInfo::new(info.title.clone(), info.artist.clone());
        let (ascii, unicode) = match (&info.title_unicode, &info.artist_unicode) {
            (Some(tu), Some(au)) => (plain, BasicSongInfo::new(tu.clone(), au.clone())),
            _ => (plain.filter_ascii(), plain),
        };
        OsuBeatmapInfoHolder {
            ascii,
            unicode,
            beatmapset_id: info.id as u64,
            background: clone_opt_string(background),
            audio: audio.clone(),
            beatmap,
            extensions: (lower_name_ext(&info.audio.0), lower_name_ext(&info.background.0)),
        }
    }

    /// The records of this set given what its hashes resolved to: `audio`
    /// and `background` for the set's audio and background, `beatmaps` for each
    /// of its beatmaps. None without audio; else one per resolved beatmap, in
    /// order.
    pub fn records_from(
        &self,
        audio: &Option<String>,
        background: &Option<String>,
        beatmaps: &Vec<Option<String>>,
    ) -> (r: Vec<OsuBeatmapInfoHolder>)
        ensures
            audio is None ==> r@.len() == 0,
            audio matches Some(a) ==> {
                let keep = true_indices(beatmaps@.map_values(|b: Option<String>| b is Some));
                &&& r@.len() == keep.len()
                &&& forall|k: int|
                    0 <= k < r@.len() ==> is_lazer_record(
                        #[trigger] r@[k],
                        self.beatmapset_db_info,
                        a@,
                        opt_view(*background),
                        beatmaps@[keep[k]]->0@,
                    )
            },
    {
        let a = match audio {
            Some(a) => a,
            None => return Vec::new(),
        };
        let ghost flags = beatmaps@.map_values(|b: Option<String>| b is Some);
        let mut out: Vec<OsuBeatmapInfoHolder> = Vec::new();
        let mut i: usize = 0;
        while i < beatmaps.len()
            invariant
                i <= beatmaps.len(),
                flags == beatmaps@.map_values(|b: Option<String>| b is Some),
                out@.len() == true_indices(flags.subrange(0, i as int)).len(),
                forall|k: int|
                    0 <= k < out@.len() ==> is_lazer_record(
                        #[trigger] out@[k],
                        self.beatmapset_db_info,
                        a@,
                        opt_view(*background),
                        beatmaps@[true_indices(flags.subrange(0, i as int))[k]]->0@,
                    ),
            decreases beatmaps.len() - i,
        {
            let ghost before = flags.subrange(0, i as int);
            assert(flags.subrange(0, i + 1).drop_last() == before);
            assert(flags.subrange(0, i + 1).last() == (beatmaps@[i as int] is Some));
            match &beatmaps[i] {
                Some(p) => {
                    let h = self.record_for(a, background, p.clone());
                    out.push(h);
                },
                None => {},
            }
            proof {
                let t = true_indices(flags.subrange(0, i + 1));
                assert forall|k: int| 0 <= k < out@.len() implies is_lazer_record(
                    #[trigger] out@[k],
                    self.beatmapset_db_info,
                    a@,
                    opt_view(*background),
                    beatmaps@[t[k]]->0@,
                ) by {
                    if k < true_indices(before).len() {
                        assert(t[k] == true_indices(before)[k]);
                    }
                }
            }
            i = i + 1;
        }
        assert(flags.subrange(0, beatmaps.len() as int) == flags);
        out
    }

    /// The records of this set, one per beatmap of `entries` (the catalog's
    /// list of the set's beatmaps) whose hash resolves, in the order of
    /// `entries`. None when the set has no audio hash or its audio does not
    /// resolve; no background when its hash does not resolve.
    pub fn beatmaps(&self, entries: &Vec<Osu50BeatmapDbListingItem>) -> (r: Vec<OsuBeatmapInfoHolder>)
        ensures
            lazer_records_for_some_outcome(
                r@,
                self.hash_resolver.folder@,
                self.beatmapset_db_info,
                entries@,
            ),
    {
        let info = &self.beatmapset_db_info;
        let ghost folder = self.hash_resolver.folder@;
        let audio = match &info.audio.1 {
            Some(h) => match self.hash_resolver.resolve(h.as_str()) {
                Ok(p) => Some(p),
                Err(_) => None,
            },
            None => None,
        };
        let background = match &info.background.1 {
            Some(h) => match self.hash_resolver.resolve(h.as_str()) {
                Ok(p) => Some(p),
                Err(_) => None,
            },
            None => None,
        };
        let mut resolved: Vec<Option<String>> = Vec::new();
        let mut i: usize = 0;
        while i < entries.len()
            invariant
                i <= entries.len(),
                resolved@.len() == i,
                forall|j: int|
                    0 <= j < i ==> (#[trigger] resolved@[j] matches Some(p) ==> p@ == blob_path(
                        folder,
                        entries@[j].hash@,
                    )),
                folder == self.hash_resolver.folder@,
            decreases entries.len() - i,
        {
            let r = match self.hash_resolver.resolve(entries[i].hash.as_str()) {
                Ok(p) => Some(p),
                Err(_) => None,
            };
            resolved.push(r);
            i = i + 1;
        }
        let out = self.records_from(&audio, &background, &resolved);
        proof {
            let found = resolved@.map_values(|b: Option<String>| b is Some);
            let bg_found = background is Some;
            let audio_found = audio is Some;
            lemma_true_indices_bounds(found);
            if info.audio.1 is Some && audio_found {
                let keep = true_indices(found);
                assert forall|k: int| 0 <= k < out@.len() implies is_lazer_record(
                    #[trigger] out@[k],
                    *info,
                    blob_path(folder, info.audio.1->0@),
                    if bg_found && info.background.1 is Some {
                        Some(blob_path(folder, info.background.1->0@))
                    } else {
                        None
                    },
                    blob_path(folder, entries@[keep[k]].hash@),
                ) by {
                    assert(found[keep[k]]);
                    assert(resolved@[keep[k]] is Some);
                }
            }
            assert(lazer_records(out@, folder, *info, entries@, audio_found, bg_found, found));
        }
        out
    }
}

/// `r` are the records of the set `info` when its audio resolved
/// (`audio_found`), its background resolved (`background_found`) and each
/// entry's hash resolved or not (`found`): none without audio, else one per
/// resolved entry, in order.
pub open spec fn lazer_records(
    r: Seq<OsuBeatmapInfoHolder>,
    folder: Seq<char>,
    info: Osu50BeatmapSetDbListingItem,
    entries: Seq<Osu50BeatmapDbListingItem>,
    audio_found: bool,
    background_found: bool,
    found: Seq<bool>,
) -> bool {
    if info.audio.1 is None || !audio_found {
        r.len() == 0
    } else {
        let keep = true_indices(found);
        let background = if background_found && info.background.1 is Some {
            Some(blob_path(folder, info.background.1->0@))
        } else {
            None
        };
        &&& found.len() == entries.len()
        &&& r.len() == keep.len()
        &&& forall|k: int|
            0 <= k < r.len() ==> is_lazer_record(
                #[trigger] r[k],
                info,
                blob_path(folder, info.audio.1->0@),
                background,
                blob_path(folder, entries[keep[k]].hash@),
            )
    }
}

/// `r` are the records of the set `info` for some outcome of the checks on
/// disk.
pub open spec fn lazer_records_for_some_outcome(
    r: Seq<OsuBeatmapInfoHolder>,
    folder: Seq<char>,
    info: Osu50BeatmapSetDbListingItem,
    entries: Seq<Osu50BeatmapDbListingItem>,
) -> bool {
    exists|audio_found: bool, background_found: bool, found: Seq<bool>|
        lazer_records(r, folder, info, entries, audio_found, background_found, found)
}

} // verus!
