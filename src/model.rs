//! The records that the source readers produce and the later stages carry.
use vstd::prelude::*;

verus! {

/// Title and artist of one song.
pub struct BasicSongInfo {
    pub title: String,
    pub artist: String,
}

/// One beatmap as read from a source, with both the ASCII and the Unicode
/// title/artist pair.
pub struct OsuBeatmapInfoHolder {
    pub ascii: BasicSongInfo,
    pub unicode: BasicSongInfo,
    pub beatmapset_id: u64,
    pub background: Option<String>,
    pub audio: String,
    pub beatmap: String,
    /// Lower-cased extensions of the audio file and of the background image.
    pub extensions: (Option<String>, Option<String>),
}

/// One beatmap after normalization: a single title/artist pair.
pub struct OsuBeatmapInfoHolderSimple {
    pub info: BasicSongInfo,
    pub beatmapset_id: u64,
    pub background: Option<String>,
    pub audio: String,
    pub beatmap: String,
    /// Lower-cased extensions of the audio file and of the background image.
    pub extensions: (Option<String>, Option<String>),
}

/// What the text parser recovers from one legacy beatmap file.
pub struct OsuBeatmapInfoExtracted {
    /// The romanised pair, present only when a Unicode pair exists beside it.
    pub ascii_opt: Option<BasicSongInfo>,
    pub unicode: BasicSongInfo,
    pub background: Option<String>,
    pub audio: String,
}

/// A copy of an optional string.
pub fn clone_opt_string(o: &Option<String>) -> (r: Option<String>)
    ensures
        r == *o,
{
    match o {
        Some(s) => Some(s.clone()),
        None => None,
    }
}

impl BasicSongInfo {
    /// A title and artist pair.
    pub fn new(title: String, artist: String) -> (r: Self)
        ensures
            r.title == title,
            r.artist == artist,
    {
        BasicSongInfo { title, artist }
    }
}

impl Clone for BasicSongInfo {
    fn clone(&self) -> (r: Self)
        ensures
            r == *self,
    {
        BasicSongInfo { title: self.title.clone(), artist: self.artist.clone() }
    }
}

impl Clone for OsuBeatmapInfoHolderSimple {
    fn clone(&self) -> (r: Self)
        ensures
            r == *self,
    {
        OsuBeatmapInfoHolderSimple {
            info: self.info.clone(),
            beatmapset_id: self.beatmapset_id,
            background: clone_opt_string(&self.background),
            audio: self.audio.clone(),
            beatmap: self.beatmap.clone(),
            extensions: (clone_opt_string(&self.extensions.0), clone_opt_string(&self.extensions.1)),
        }
    }
}


/// The characters of an optional string.
pub open spec fn opt_view(o: Option<String>) -> Option<Seq<char>> {
    match o {
        Some(s) => Some(s@),
        None => None,
    }
}

impl View for BasicSongInfo {
    type V = (Seq<char>, Seq<char>);

    open spec fn view(&self) -> (Seq<char>, Seq<char>) {
        (self.title@, self.artist@)
    }
}

/// Metadata of one beatmap: the ASCII pair if a Unicode pair stands beside
/// it, the Unicode (or only) pair, the background file name and the audio file
/// name.
pub type ExtractedView = (
    Option<(Seq<char>, Seq<char>)>,
    (Seq<char>, Seq<char>),
    Option<Seq<char>>,
    Seq<char>,
);

impl View for OsuBeatmapInfoExtracted {
    type V = ExtractedView;

    open spec fn view(&self) -> ExtractedView {
        (
            match self.ascii_opt {
                Some(a) => Some(a@),
                None => None,
            },
            self.unicode@,
            opt_view(self.background),
            self.audio@,
        )
    }
}


/// The ASCII characters of `s`, in order.
pub open spec fn ascii_only(s: Seq<char>) -> Seq<char>
    decreases s.len(),
{
    if s.len() == 0 {
        s
    } else if (s.last() as u32) < 128 {
        ascii_only(s.drop_last()).push(s.last())
    } else {
        ascii_only(s.drop_last())
    }
}

fn ascii_filtered(s: &String) -> (r: String)
    ensures
        r@ == ascii_only(s@),
{
    let chars = crate::text::chars_of(s.as_str());
    let mut out = String::new();
    for i in 0..chars.len()
        invariant
            chars@ == s@,
            out@ == ascii_only(chars@.subrange(0, i as int)),
    {
        assert(chars@.subrange(0, i + 1).drop_last() == chars@.subrange(0, i as int));
        let c = chars[i];
        if (c as u32) < 128 {
            crate::text::push_char(&mut out, c);
        }
    }
    assert(chars@.subrange(0, chars.len() as int) == chars@);
    out
}

impl BasicSongInfo {
    /// The same title and artist with every non-ASCII character removed.
    pub fn filter_ascii(&self) -> (r: Self)
        ensures
            r.title@ == ascii_only(self.title@),
            r.artist@ == ascii_only(self.artist@),
    {
        BasicSongInfo::new(ascii_filtered(&self.title), ascii_filtered(&self.artist))
    }
}

/// The normalized record of a source record: the Unicode pair when
/// `unicode_support` holds, the ASCII pair otherwise, and every other field as
/// it is.
pub open spec fn simplified(other: OsuBeatmapInfoHolder, unicode_support: bool) -> OsuBeatmapInfoHolderSimple {
    OsuBeatmapInfoHolderSimple {
        info: if unicode_support { other.unicode } else { other.ascii },
        beatmapset_id: other.beatmapset_id,
        background: other.background,
        audio: other.audio,
        beatmap: other.beatmap,
        extensions: other.extensions,
    }
}

impl OsuBeatmapInfoHolderSimple {
    /// The normalized record of `other`.
    pub fn from_holder(other: OsuBeatmapInfoHolder, unicode_support: bool) -> (r: Self)
        ensures
            r == simplified(other, unicode_support),
    {
        OsuBeatmapInfoHolderSimple {
            info: if unicode_support { other.unicode } else { other.ascii },
            beatmapset_id: other.beatmapset_id,
            background: other.background,
            audio: other.audio,
            beatmap: other.beatmap,
            extensions: other.extensions,
        }
    }
}

impl Clone for OsuBeatmapInfoHolder {
    fn clone(&self) -> (r: Self)
        ensures
            r == *self,
    {
        OsuBeatmapInfoHolder {
            ascii: self.ascii.clone(),
            unicode: self.unicode.clone(),
            beatmapset_id: self.beatmapset_id,
            background: clone_opt_string(&self.background),
            audio: self.audio.clone(),
            beatmap: self.beatmap.clone(),
            extensions: (clone_opt_string(&self.extensions.0), clone_opt_string(&self.extensions.1)),
        }
    }
}

/// One normalized record per set that yielded any: that of its first beatmap.
pub open spec fn normalized(sets: Seq<Seq<OsuBeatmapInfoHolder>>, unicode_support: bool) -> Seq<
    OsuBeatmapInfoHolderSimple,
>
    decreases sets.len(),
{
    if sets.len() == 0 {
        Seq::empty()
    } else {
        let prev = normalized(sets.drop_last(), unicode_support);
        if sets.last().len() > 0 {
            prev.push(simplified(sets.last()[0], unicode_support))
        } else {
            prev
        }
    }
}

/// Collapses the beatmaps of each set into one record, skipping sets without
/// beatmaps.
pub fn normalize_sets(sets: &Vec<Vec<OsuBeatmapInfoHolder>>, unicode_support: bool) -> (r: Vec<
    OsuBeatmapInfoHolderSimple,
>)
    ensures
        r@ == normalized(sets@.map_values(|s: Vec<OsuBeatmapInfoHolder>| s@), unicode_support),
{
    let ghost sv = sets@.map_values(|s: Vec<OsuBeatmapInfoHolder>| s@);
    let mut out: Vec<OsuBeatmapInfoHolderSimple> = Vec::new();
    for i in 0..sets.len()
        invariant
            sv == sets@.map_values(|s: Vec<OsuBeatmapInfoHolder>| s@),
            out@ == normalized(sv.subrange(0, i as int), unicode_support),
    {
        assert(sv.subrange(0, i + 1).drop_last() == sv.subrange(0, i as int));
        assert(sv.subrange(0, i + 1).last() == sets@[i as int]@);
        if sets[i].len() > 0 {
            let first = sets[i][0].clone();
            out.push(OsuBeatmapInfoHolderSimple::from_holder(first, unicode_support));
        }
    }
    assert(sv.subrange(0, sets.len() as int) == sv);
    out
}


/// Why a candidate reader does not recognize a source root.
#[derive(PartialEq, Eq, Structural, Clone, Copy, Debug)]
pub enum SourceError {
    /// The root is not a directory.
    NotADirectory,
    /// A legacy root lacks its `Songs` directory.
    MissingSongs,
    /// A database root lacks its `files` directory.
    MissingFiles,
    /// A database root lacks its `client.db` file.
    MissingClientDb,
}


/// The positions of `flags` that hold `true`, in order.
pub open spec fn true_indices(flags: Seq<bool>) -> Seq<int>
    decreases flags.len(),
{
    if flags.len() == 0 {
        Seq::empty()
    } else if flags.last() {
        true_indices(flags.drop_last()).push(flags.len() - 1)
    } else {
        true_indices(flags.drop_last())
    }
}

/// Every position that `true_indices` gives lies in `flags` and holds `true`.
pub proof fn lemma_true_indices_bounds(flags: Seq<bool>)
    ensures
        forall|k: int|
            0 <= k < true_indices(flags).len() ==> 0 <= #[trigger] true_indices(flags)[k] < flags.len()
                && flags[true_indices(flags)[k]],
    decreases flags.len(),
{
    if flags.len() > 0 {
        let p = flags.drop_last();
        lemma_true_indices_bounds(p);
        let t = true_indices(flags);
        assert forall|k: int| 0 <= k < t.len() implies 0 <= #[trigger] t[k] < flags.len() && flags[t[k]] by {
            if k < true_indices(p).len() {
                assert(t[k] == true_indices(p)[k]);
                assert(flags[t[k]] == p[t[k]]);
            }
        }
    }
}


/// `v` is the value of the first success among `results`.
pub open spec fn is_first_success<T, E>(results: Seq<Result<T, E>>, v: T) -> bool {
    exists|i: int|
        0 <= i < results.len() && #[trigger] results[i] == Ok::<T, E>(v) && forall|j: int|
            0 <= j < i ==> (#[trigger] results[j]) is Err
}

/// The reasons of `results`, all of which are failures, in order.
pub open spec fn failure_reasons<T, E>(results: Seq<Result<T, E>>) -> Seq<E> {
    results.map_values(|x: Result<T, E>| x->Err_0)
}

/// The first success among the attempts of the candidate readers, or, when
/// every one failed, all their reasons in order.
pub fn first_recognized<T, E>(results: Vec<Result<T, E>>) -> (r: Result<T, Vec<E>>)
    ensures
        r is Ok <==> exists|i: int| 0 <= i < results@.len() && (#[trigger] results@[i]) is Ok,
        r matches Ok(v) ==> is_first_success(results@, v),
        r matches Err(es) ==> es@ == failure_reasons(results@),
{
    let ghost all = results@;
    let mut reasons: Vec<E> = Vec::new();
    for x in it: results
        invariant
            it.seq() == all,
            forall|j: int| 0 <= j < it.index() ==> (#[trigger] all[j]) is Err,
            reasons@ == failure_reasons(all.subrange(0, it.index() as int)),
    {
        let ghost i = it.index() as int;
        assert(x == all[i]);
        match x {
            Ok(v) => {
                assert(all[i] == Ok::<T, E>(v));
                return Ok(v);
            },
            Err(e) => {
                reasons.push(e);
                assert(reasons@ =~= failure_reasons(all.subrange(0, i + 1)));
            },
        }
    }
    assert(all.subrange(0, all.len() as int) == all);
    Err(reasons)
}


/// Every position that holds `true` is among those that `true_indices` gives.
pub proof fn lemma_true_indices_complete(flags: Seq<bool>, j: int)
    requires
        0 <= j < flags.len(),
        flags[j],
    ensures
        exists|k: int| 0 <= k < true_indices(flags).len() && #[trigger] true_indices(flags)[k] == j,
    decreases flags.len(),
{
    let p = flags.drop_last();
    if j == flags.len() - 1 {
        let t = true_indices(flags);
        assert(t[t.len() - 1] == j);
    } else {
        assert(p[j] == flags[j]);
        lemma_true_indices_complete(p, j);
        let k = choose|k: int| 0 <= k < true_indices(p).len() && true_indices(p)[k] == j;
        if flags.last() {
            assert(true_indices(flags)[k] == j);
        } else {
            assert(true_indices(flags)[k] == j);
        }
    }
}

} // verus!
