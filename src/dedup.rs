//! Grouping of records that hold the same song, and choice of one record per
//! group by audio quality.
use vstd::prelude::*;
use crate::model::{OsuBeatmapInfoHolderSimple, clone_opt_string};
use crate::numbers::{parse_u32, parse_u32_str};
use crate::text::{chars_of, lower_of, lowercase, string_of};

verus! {

/// Audio codecs that the prober reports and that ranking knows.
#[derive(PartialEq, Eq, Structural, Clone, Copy, Debug)]
pub enum AudioCodec {
    Mp3,
    Vorbis,
}

/// What the prober found out about one audio file.
#[derive(PartialEq, Eq, Structural, Clone, Copy, Debug)]
pub struct AudioFingerprint {
    pub bit_rate: u32,
    pub sample_rate: u32,
    pub codec: AudioCodec,
}

/// A record together with the fingerprint of its audio file.
pub struct OsuBeatmapTrackInfo {
    pub info: OsuBeatmapInfoHolderSimple,
    pub fingerprint: AudioFingerprint,
}

impl Clone for OsuBeatmapTrackInfo {
    fn clone(&self) -> (r: Self)
        ensures
            r == *self,
    {
        OsuBeatmapTrackInfo { info: self.info.clone(), fingerprint: self.fingerprint }
    }
}

impl OsuBeatmapTrackInfo {
    /// A record paired with its fingerprint.
    pub fn new(info: OsuBeatmapInfoHolderSimple, fingerprint: AudioFingerprint) -> (r: Self)
        ensures
            r.info == info,
            r.fingerprint == fingerprint,
    {
        OsuBeatmapTrackInfo { info, fingerprint }
    }
}

/// Fixed weight of a codec in the ranking: 8 for MP3, 10 for Vorbis.
pub open spec fn codec_factor(c: AudioCodec) -> int {
    match c {
        AudioCodec::Mp3 => 8,
        AudioCodec::Vorbis => 10,
    }
}

/// Ranking score: bit rate times codec weight.
pub open spec fn score(t: OsuBeatmapTrackInfo) -> int {
    t.fingerprint.bit_rate * codec_factor(t.fingerprint.codec)
}

/// `a` ranks above `b`: a higher score, or the same score and a newer set.
pub open spec fn outranks(a: OsuBeatmapTrackInfo, b: OsuBeatmapTrackInfo) -> bool {
    score(a) > score(b) || (score(a) == score(b) && a.info.beatmapset_id > b.info.beatmapset_id)
}

/// `i` is the first position of a member that no member outranks.
pub open spec fn is_best_index(g: Seq<OsuBeatmapTrackInfo>, i: int) -> bool {
    &&& 0 <= i < g.len()
    &&& forall|j: int| 0 <= j < g.len() ==> !outranks(#[trigger] g[j], g[i])
    &&& forall|j: int| 0 <= j < i ==> outranks(g[i], #[trigger] g[j])
}

/// The member has a background image.
pub open spec fn has_background(t: OsuBeatmapTrackInfo) -> bool {
    t.info.background is Some
}

/// `k` is the first position of a member with a background image whose set id
/// is the highest among the members with one.
pub open spec fn is_background_index(g: Seq<OsuBeatmapTrackInfo>, k: int) -> bool {
    &&& 0 <= k < g.len()
    &&& has_background(g[k])
    &&& forall|j: int|
        0 <= j < g.len() && has_background(#[trigger] g[j]) ==> g[j].info.beatmapset_id
            <= g[k].info.beatmapset_id
    &&& forall|j: int|
        0 <= j < k && has_background(#[trigger] g[j]) ==> g[j].info.beatmapset_id
            < g[k].info.beatmapset_id
}

/// The best position of a non-empty group.
pub open spec fn best_index(g: Seq<OsuBeatmapTrackInfo>) -> int {
    choose|i: int| is_best_index(g, i)
}

/// The background position of a group with a member that has a background.
pub open spec fn background_index(g: Seq<OsuBeatmapTrackInfo>) -> int {
    choose|k: int| is_background_index(g, k)
}

/// The record that stands for a group: a single member as it is; otherwise the
/// best member, whose background image, its extension and the set id come from
/// the newest member that has a background. When no member has one, the best
/// member as it is.
pub open spec fn canonical(g: Seq<OsuBeatmapTrackInfo>) -> OsuBeatmapInfoHolderSimple {
    if g.len() == 1 {
        g[0].info
    } else {
        let b = g[best_index(g)].info;
        if exists|k: int| is_background_index(g, k) {
            let m = g[background_index(g)].info;
            OsuBeatmapInfoHolderSimple {
                beatmapset_id: m.beatmapset_id,
                background: m.background,
                extensions: (b.extensions.0, m.extensions.1),
                ..b
            }
        } else {
            b
        }
    }
}

/// The best position is unique.
pub proof fn lemma_best_index_unique(g: Seq<OsuBeatmapTrackInfo>, i: int, j: int)
    requires
        is_best_index(g, i),
        is_best_index(g, j),
    ensures
        i == j,
{
    if i < j {
        assert(outranks(g[j], g[i]));
        assert(!outranks(g[i], g[j]));
    } else if j < i {
        assert(outranks(g[i], g[j]));
        assert(!outranks(g[j], g[i]));
    }
}

/// The background position is unique.
pub proof fn lemma_background_index_unique(g: Seq<OsuBeatmapTrackInfo>, i: int, j: int)
    requires
        is_background_index(g, i),
        is_background_index(g, j),
    ensures
        i == j,
{
    if i < j {
        assert(g[i].info.beatmapset_id < g[j].info.beatmapset_id);
    } else if j < i {
        assert(g[j].info.beatmapset_id < g[i].info.beatmapset_id);
    }
}

fn score_of(t: &OsuBeatmapTrackInfo) -> (r: u64)
    ensures
        r == score(*t),
{
    let factor: u64 = match t.fingerprint.codec {
        AudioCodec::Mp3 => 8,
        AudioCodec::Vorbis => 10,
    };
    (t.fingerprint.bit_rate as u64) * factor
}

/// The position of the best member: highest score, then highest set id, then
/// earliest position.
pub fn best_position(group: &Vec<OsuBeatmapTrackInfo>) -> (r: usize)
    requires
        group.len() > 0,
    ensures
        is_best_index(group@, r as int),
{
    let mut best: usize = 0;
    let mut best_score: u64 = score_of(&group[0]);
    let mut i: usize = 1;
    while i < group.len()
        invariant
            1 <= i <= group.len(),
            best < i,
            best_score == score(group@[best as int]),
            forall|j: int| 0 <= j < i ==> !outranks(#[trigger] group@[j], group@[best as int]),
            forall|j: int| 0 <= j < best ==> outranks(group@[best as int], #[trigger] group@[j]),
        decreases group.len() - i,
    {
        let s = score_of(&group[i]);
        if best_score < s || (best_score == s && group[best].info.beatmapset_id
            < group[i].info.beatmapset_id) {
            best = i;
            best_score = s;
        }
        i = i + 1;
    }
    best
}

/// The position of the newest member with a background image, if any.
pub fn background_position(group: &Vec<OsuBeatmapTrackInfo>) -> (r: Option<usize>)
    ensures
        r matches Some(k) ==> is_background_index(group@, k as int),
        r is None ==> forall|j: int| 0 <= j < group.len() ==> !has_background(#[trigger] group@[j]),
{
    let mut found: Option<usize> = None;
    let mut i: usize = 0;
    while i < group.len()
        invariant
            i <= group.len(),
            found matches Some(k) ==> k < i && has_background(group@[k as int])
                && (forall|j: int|
                0 <= j < i && has_background(#[trigger] group@[j]) ==> group@[j].info.beatmapset_id
                    <= group@[k as int].info.beatmapset_id) && (forall|j: int|
                0 <= j < k && has_background(#[trigger] group@[j]) ==> group@[j].info.beatmapset_id
                    < group@[k as int].info.beatmapset_id),
            found is None ==> forall|j: int| 0 <= j < i ==> !has_background(#[trigger] group@[j]),
        decreases group.len() - i,
    {
        if group[i].info.background.is_some() {
            match found {
                None => {
                    found = Some(i);
                },
                Some(k) => {
                    if group[k].info.beatmapset_id < group[i].info.beatmapset_id {
                        found = Some(i);
                    }
                },
            }
        }
        i = i + 1;
    }
    found
}

/// The record that stands for a non-empty group of the same song.
pub fn choose_canonical(group: &Vec<OsuBeatmapTrackInfo>) -> (r: OsuBeatmapInfoHolderSimple)
    requires
        group.len() > 0,
    ensures
        r == canonical(group@),
{
    if group.len() == 1 {
        return group[0].info.clone();
    }
    let best = best_position(group);
    proof {
        lemma_best_index_unique(group@, best as int, best_index(group@));
    }
    let b = &group[best].info;
    match background_position(group) {
        Some(k) => {
            proof {
                lemma_background_index_unique(group@, k as int, background_index(group@));
            }
            let m = &group[k].info;
            OsuBeatmapInfoHolderSimple {
                info: b.info.clone(),
                beatmapset_id: m.beatmapset_id,
                background: clone_opt_string(&m.background),
                audio: b.audio.clone(),
                beatmap: b.beatmap.clone(),
                extensions: (clone_opt_string(&b.extensions.0), clone_opt_string(&m.extensions.1)),
            }
        },
        None => {
            proof {
                assert(!exists|k: int| is_background_index(group@, k));
            }
            b.clone()
        },
    }
}


/// Two records hold the same song when their titles and their artists are
/// equal after lower-casing.
pub open spec fn song_key(t: OsuBeatmapTrackInfo) -> (Seq<char>, Seq<char>) {
    (lower_of(t.info.info.title@), lower_of(t.info.info.artist@))
}

/// The distinct song keys of `s`, in the order of their first occurrence.
pub open spec fn group_keys(s: Seq<OsuBeatmapTrackInfo>) -> Seq<(Seq<char>, Seq<char>)>
    decreases s.len(),
{
    if s.len() == 0 {
        Seq::empty()
    } else {
        let prev = group_keys(s.drop_last());
        if prev.contains(song_key(s.last())) {
            prev
        } else {
            prev.push(song_key(s.last()))
        }
    }
}

/// The members of `s` with song key `k`, in their order in `s`.
pub open spec fn group_of(s: Seq<OsuBeatmapTrackInfo>, k: (Seq<char>, Seq<char>)) -> Seq<
    OsuBeatmapTrackInfo,
>
    decreases s.len(),
{
    if s.len() == 0 {
        Seq::empty()
    } else {
        let prev = group_of(s.drop_last(), k);
        if song_key(s.last()) == k {
            prev.push(s.last())
        } else {
            prev
        }
    }
}

/// The records that deduplication keeps: one per group, groups in the order in
/// which their first member occurs.
pub open spec fn deduplicated(s: Seq<OsuBeatmapTrackInfo>) -> Seq<OsuBeatmapInfoHolderSimple> {
    group_keys(s).map_values(|k: (Seq<char>, Seq<char>)| canonical(group_of(s, k)))
}

/// The group of any member's key holds that member.
pub proof fn lemma_group_holds_member(s: Seq<OsuBeatmapTrackInfo>, j: int)
    requires
        0 <= j < s.len(),
    ensures
        group_of(s, song_key(s[j])).contains(s[j]),
        group_keys(s).contains(song_key(s[j])),
    decreases s.len(),
{
    let prev = s.drop_last();
    if j < s.len() - 1 {
        lemma_group_holds_member(prev, j);
        assert(prev[j] == s[j]);
        let g = group_of(prev, song_key(s[j]));
        let w = choose|w: int| 0 <= w < g.len() && g[w] == s[j];
        if song_key(s.last()) == song_key(s[j]) {
            assert(g.push(s.last())[w] == s[j]);
        }
        let ks = group_keys(prev);
        let v = choose|v: int| 0 <= v < ks.len() && ks[v] == song_key(s[j]);
        if !ks.contains(song_key(s.last())) {
            assert(ks.push(song_key(s.last()))[v] == song_key(s[j]));
        }
    } else {
        let g = group_of(prev, song_key(s[j]));
        assert(g.push(s[j])[g.len() as int] == s[j]);
        let ks = group_keys(prev);
        if !ks.contains(song_key(s[j])) {
            assert(ks.push(song_key(s[j]))[ks.len() as int] == song_key(s[j]));
        }
    }
}

/// Every member of a group has the group's key.
pub proof fn lemma_group_members_share_key(
    s: Seq<OsuBeatmapTrackInfo>,
    k: (Seq<char>, Seq<char>),
    w: int,
)
    requires
        0 <= w < group_of(s, k).len(),
    ensures
        song_key(group_of(s, k)[w]) == k,
    decreases s.len(),
{
    let prev = group_of(s.drop_last(), k);
    if w < prev.len() {
        lemma_group_members_share_key(s.drop_last(), k, w);
    }
}

/// Removes duplicate songs: groups the records by song key and keeps the
/// canonical record of each group.
pub fn deduplicate_infos(candidates: &Vec<OsuBeatmapTrackInfo>) -> (r: Vec<OsuBeatmapInfoHolderSimple>)
    ensures
        r@ == deduplicated(candidates@),
{
    let ghost s = candidates@;
    let n = candidates.len();
    let mut lowered: Vec<(String, String)> = Vec::new();
    for i in 0..n
        invariant
            n == s.len(),
            s == candidates@,
            lowered.len() == i,
            forall|j: int| 0 <= j < i ==> (#[trigger] lowered@[j].0@, lowered@[j].1@) == song_key(s[j]),
    {
        let t = lowercase(candidates[i].info.info.title.as_str());
        let a = lowercase(candidates[i].info.info.artist.as_str());
        lowered.push((t, a));
    }
    // first member of each group, in order of first occurrence
    let mut firsts: Vec<usize> = Vec::new();
    for i in 0..n
        invariant
            n == s.len(),
            s == candidates@,
            lowered.len() == n,
            forall|j: int| 0 <= j < n ==> (#[trigger] lowered@[j].0@, lowered@[j].1@) == song_key(s[j]),
            forall|m: int| 0 <= m < firsts.len() ==> #[trigger] firsts@[m] < i,
            firsts@.len() == group_keys(s.take(i as int)).len(),
            forall|m: int|
                0 <= m < firsts.len() ==> song_key(s[#[trigger] firsts@[m] as int]) == group_keys(
                    s.take(i as int),
                )[m],
    {
        let ghost ks = group_keys(s.take(i as int));
        let mut found = false;
        for m in 0..firsts.len()
            invariant
                n == s.len(),
                i < n,
                lowered.len() == n,
                forall|j: int| 0 <= j < n ==> (#[trigger] lowered@[j].0@, lowered@[j].1@) == song_key(s[j]),
                forall|m: int| 0 <= m < firsts.len() ==> #[trigger] firsts@[m] < i,
                found <==> exists|q: int| 0 <= q < m && song_key(s[#[trigger] firsts@[q] as int]) == song_key(s[i as int]),
        {
            let f = firsts[m];
            if lowered[f].0 == lowered[i].0 && lowered[f].1 == lowered[i].1 {
                found = true;
            }
            proof {
                assert((lowered@[f as int].0@, lowered@[f as int].1@) == song_key(s[f as int]));
                assert((lowered@[i as int].0@, lowered@[i as int].1@) == song_key(s[i as int]));
            }
        }
        proof {
            assert(s.take(i + 1).drop_last() == s.take(i as int));
            assert(s.take(i + 1).last() == s[i as int]);
            if found {
                let q = choose|q: int| 0 <= q < firsts.len() && song_key(s[#[trigger] firsts@[q] as int]) == song_key(s[i as int]);
                assert(ks[q] == song_key(s[i as int]));
                assert(ks.contains(song_key(s[i as int])));
            } else {
                assert forall|q: int| 0 <= q < ks.len() implies ks[q] != song_key(s[i as int]) by {
                    assert(song_key(s[firsts@[q] as int]) == ks[q]);
                }
            }
        }
        if !found {
            firsts.push(i);
        }
    }
    assert(s.take(n as int) == s);
    let ghost ks = group_keys(s);
    let mut result: Vec<OsuBeatmapInfoHolderSimple> = Vec::new();
    for m in 0..firsts.len()
        invariant
            n == s.len(),
            s == candidates@,
            lowered.len() == n,
            forall|j: int| 0 <= j < n ==> (#[trigger] lowered@[j].0@, lowered@[j].1@) == song_key(s[j]),
            forall|q: int| 0 <= q < firsts.len() ==> #[trigger] firsts@[q] < n,
            firsts@.len() == ks.len(),
            forall|q: int| 0 <= q < firsts.len() ==> song_key(s[#[trigger] firsts@[q] as int]) == ks[q],
            result@.len() == m,
            forall|q: int| 0 <= q < m ==> #[trigger] result@[q] == canonical(group_of(s, ks[q])),
    {
        let f = firsts[m];
        let ghost k = ks[m as int];
        let mut group: Vec<OsuBeatmapTrackInfo> = Vec::new();
        for i in 0..n
            invariant
                n == s.len(),
                s == candidates@,
                lowered.len() == n,
                forall|j: int| 0 <= j < n ==> (#[trigger] lowered@[j].0@, lowered@[j].1@) == song_key(s[j]),
                f < n,
                song_key(s[f as int]) == k,
                group@ == group_of(s.take(i as int), k),
        {
            proof {
                assert(s.take(i + 1).drop_last() == s.take(i as int));
                assert(s.take(i + 1).last() == s[i as int]);
                assert((lowered@[f as int].0@, lowered@[f as int].1@) == song_key(s[f as int]));
                assert((lowered@[i as int].0@, lowered@[i as int].1@) == song_key(s[i as int]));
            }
            if lowered[i].0 == lowered[f].0 && lowered[i].1 == lowered[f].1 {
                group.push(candidates[i].clone());
            }
        }
        proof {
            assert(s.take(n as int) == s);
            lemma_group_holds_member(s, f as int);
        }
        let chosen = choose_canonical(&group);
        result.push(chosen);
    }
    proof {
        assert(result@ == deduplicated(s));
    }
    result
}


/// A non-empty group has a best member.
pub proof fn lemma_best_exists(g: Seq<OsuBeatmapTrackInfo>)
    requires
        g.len() > 0,
    ensures
        exists|i: int| is_best_index(g, i),
    decreases g.len(),
{
    if g.len() == 1 {
        assert(is_best_index(g, 0));
    } else {
        let p = g.drop_last();
        lemma_best_exists(p);
        let i0 = choose|i: int| is_best_index(p, i);
        let last = g.len() - 1;
        if outranks(g[last], g[i0]) {
            assert forall|j: int| 0 <= j < last implies outranks(g[last], #[trigger] g[j]) by {
                assert(p[j] == g[j]);
                assert(!outranks(p[j], p[i0]));
            }
            assert(is_best_index(g, last));
        } else {
            assert forall|j: int| 0 <= j < g.len() implies !outranks(#[trigger] g[j], g[i0]) by {
                if j < last {
                    assert(p[j] == g[j]);
                }
            }
            assert forall|j: int| 0 <= j < i0 implies outranks(g[i0], #[trigger] g[j]) by {
                assert(p[j] == g[j]);
            }
            assert(is_best_index(g, i0));
        }
    }
}

/// A group with a member that has a background image has a background member.
pub proof fn lemma_background_exists(g: Seq<OsuBeatmapTrackInfo>, w: int)
    requires
        0 <= w < g.len(),
        has_background(g[w]),
    ensures
        exists|k: int| is_background_index(g, k),
    decreases g.len(),
{
    let last = g.len() - 1;
    let p = g.drop_last();
    if w == last && forall|j: int| 0 <= j < last ==> !has_background(#[trigger] g[j]) {
        assert(is_background_index(g, last));
    } else {
        let w0 = if w < last {
            w
        } else {
            choose|j: int| 0 <= j < last && has_background(#[trigger] g[j])
        };
        assert(p[w0] == g[w0]);
        lemma_background_exists(p, w0);
        let k0 = choose|k: int| is_background_index(p, k);
        if has_background(g[last]) && g[k0].info.beatmapset_id < g[last].info.beatmapset_id {
            assert forall|j: int|
                0 <= j < g.len() && has_background(#[trigger] g[j]) implies g[j].info.beatmapset_id
                <= g[last].info.beatmapset_id by {
                if j < last {
                    assert(p[j] == g[j]);
                }
            }
            assert forall|j: int|
                0 <= j < last && has_background(#[trigger] g[j]) implies g[j].info.beatmapset_id
                < g[last].info.beatmapset_id by {
                assert(p[j] == g[j]);
            }
            assert(is_background_index(g, last));
        } else {
            assert forall|j: int|
                0 <= j < g.len() && has_background(#[trigger] g[j]) implies g[j].info.beatmapset_id
                <= g[k0].info.beatmapset_id by {
                if j < last {
                    assert(p[j] == g[j]);
                }
            }
            assert forall|j: int|
                0 <= j < k0 && has_background(#[trigger] g[j]) implies g[j].info.beatmapset_id
                < g[k0].info.beatmapset_id by {
                assert(p[j] == g[j]);
            }
            assert(is_background_index(g, k0));
        }
    }
}

/// Records whose titles and artists match case-insensitively end in one group,
/// whatever the order of the input: if `a` matches `b` and `b` matches `c`, a
/// single group of the output holds all three.
pub proof fn lemma_matching_records_share_group(s: Seq<OsuBeatmapTrackInfo>, a: int, b: int, c: int)
    requires
        0 <= a < s.len(),
        0 <= b < s.len(),
        0 <= c < s.len(),
        song_key(s[a]) == song_key(s[b]),
        song_key(s[b]) == song_key(s[c]),
    ensures
        exists|q: int|
            0 <= q < group_keys(s).len() && group_of(s, #[trigger] group_keys(s)[q]).contains(s[a])
                && group_of(s, group_keys(s)[q]).contains(s[b]) && group_of(
                s,
                group_keys(s)[q],
            ).contains(s[c]),
{
    lemma_group_holds_member(s, a);
    lemma_group_holds_member(s, b);
    lemma_group_holds_member(s, c);
    let ks = group_keys(s);
    let q = choose|q: int| 0 <= q < ks.len() && ks[q] == song_key(s[a]);
    assert(group_of(s, ks[q]).contains(s[a]));
}

/// No two members of `g` come from the same set.
pub open spec fn distinct_set_ids(g: Seq<OsuBeatmapTrackInfo>) -> bool {
    forall|i: int, j: int|
        0 <= i < g.len() && 0 <= j < g.len() && i != j ==> (#[trigger] g[i]).info.beatmapset_id
            != (#[trigger] g[j]).info.beatmapset_id
}

proof fn lemma_best_carries_over(g1: Seq<OsuBeatmapTrackInfo>, g2: Seq<OsuBeatmapTrackInfo>, i: int)
    requires
        is_best_index(g1, i),
        forall|x: OsuBeatmapTrackInfo| g1.contains(x) <==> g2.contains(x),
        distinct_set_ids(g2),
    ensures
        is_best_index(g2, best_index(g2)),
        g2[best_index(g2)] == g1[i],
{
    assert(g1.contains(g1[i]));
    let p = choose|p: int| 0 <= p < g2.len() && g2[p] == g1[i];
    assert forall|j: int| 0 <= j < g2.len() implies !outranks(#[trigger] g2[j], g2[p]) by {
        assert(g2.contains(g2[j]));
        let q = choose|q: int| 0 <= q < g1.len() && g1[q] == g2[j];
        assert(!outranks(g1[q], g1[i]));
    }
    assert forall|j: int| 0 <= j < p implies outranks(g2[p], #[trigger] g2[j]) by {
        assert(g2.contains(g2[j]));
        let q = choose|q: int| 0 <= q < g1.len() && g1[q] == g2[j];
        assert(!outranks(g1[q], g1[i]));
        assert(g2[j].info.beatmapset_id != g2[p].info.beatmapset_id);
    }
    assert(is_best_index(g2, p));
    lemma_best_index_unique(g2, p, best_index(g2));
}

proof fn lemma_background_carries_over(
    g1: Seq<OsuBeatmapTrackInfo>,
    g2: Seq<OsuBeatmapTrackInfo>,
    k: int,
)
    requires
        is_background_index(g1, k),
        forall|x: OsuBeatmapTrackInfo| g1.contains(x) <==> g2.contains(x),
        distinct_set_ids(g2),
    ensures
        is_background_index(g2, background_index(g2)),
        g2[background_index(g2)] == g1[k],
{
    assert(g1.contains(g1[k]));
    let p = choose|p: int| 0 <= p < g2.len() && g2[p] == g1[k];
    assert forall|j: int|
        0 <= j < g2.len() && has_background(#[trigger] g2[j]) implies g2[j].info.beatmapset_id
        <= g2[p].info.beatmapset_id by {
        assert(g2.contains(g2[j]));
        let q = choose|q: int| 0 <= q < g1.len() && g1[q] == g2[j];
    }
    assert forall|j: int|
        0 <= j < p && has_background(#[trigger] g2[j]) implies g2[j].info.beatmapset_id
        < g2[p].info.beatmapset_id by {
        assert(g2.contains(g2[j]));
        let q = choose|q: int| 0 <= q < g1.len() && g1[q] == g2[j];
        assert(g2[j].info.beatmapset_id != g2[p].info.beatmapset_id);
    }
    assert(is_background_index(g2, p));
    lemma_background_index_unique(g2, p, background_index(g2));
}

/// A group of one member and a group with the same records and no set id
/// twice are the same group.
proof fn lemma_single_member_group(g1: Seq<OsuBeatmapTrackInfo>, g2: Seq<OsuBeatmapTrackInfo>)
    requires
        g1.len() == 1,
        g2.len() > 0,
        forall|x: OsuBeatmapTrackInfo| g1.contains(x) <==> g2.contains(x),
        distinct_set_ids(g2),
    ensures
        g2 == g1,
{
    assert forall|j: int| 0 <= j < g2.len() implies g2[j] == g1[0] by {
        assert(g2.contains(g2[j]));
    }
    if g2.len() >= 2 {
        assert(g2[0] == g2[1]);
        assert(g2[0].info.beatmapset_id != g2[1].info.beatmapset_id);
    }
    assert(g2 =~= g1);
}

/// The choice of the canonical record does not depend on the order of the
/// group: two groups that hold the same records, with no set id twice, get the
/// same canonical record.
pub proof fn lemma_selection_order_independent(g1: Seq<OsuBeatmapTrackInfo>, g2: Seq<OsuBeatmapTrackInfo>)
    requires
        g1.len() > 0,
        forall|x: OsuBeatmapTrackInfo| g1.contains(x) <==> g2.contains(x),
        distinct_set_ids(g1),
        distinct_set_ids(g2),
    ensures
        canonical(g1) == canonical(g2),
{
    assert(g1.contains(g1[0]));
    assert(g2.len() > 0);
    assert(g2.contains(g2[0]));
    if g1.len() == 1 {
        lemma_single_member_group(g1, g2);
    } else if g2.len() == 1 {
        lemma_single_member_group(g2, g1);
    } else {
        lemma_best_exists(g1);
        let i = choose|i: int| is_best_index(g1, i);
        lemma_best_carries_over(g1, g2, i);
        lemma_best_index_unique(g1, i, best_index(g1));
        if exists|k: int| is_background_index(g1, k) {
            let k = choose|k: int| is_background_index(g1, k);
            lemma_background_carries_over(g1, g2, k);
            lemma_background_index_unique(g1, k, background_index(g1));
        }
        if exists|k: int| is_background_index(g2, k) {
            let k = choose|k: int| is_background_index(g2, k);
            lemma_background_carries_over(g2, g1, k);
        }
    }
}

/// The background upgrade changes only the background image, its extension
/// and the set id: title, artist, audio file, beatmap file and audio extension
/// are those of the best member, and the set id is the best member's or that of
/// the member whose background is taken.
pub proof fn lemma_background_upgrade_keeps_audio(g: Seq<OsuBeatmapTrackInfo>)
    requires
        g.len() > 0,
    ensures
        is_best_index(g, best_index(g)),
        canonical(g).info == g[best_index(g)].info.info,
        canonical(g).audio == g[best_index(g)].info.audio,
        canonical(g).beatmap == g[best_index(g)].info.beatmap,
        canonical(g).extensions.0 == g[best_index(g)].info.extensions.0,
        canonical(g).beatmapset_id == g[best_index(g)].info.beatmapset_id || (exists|k: int|
            is_background_index(g, k)) && canonical(g).beatmapset_id
            == g[background_index(g)].info.beatmapset_id,
        !(exists|k: int| is_background_index(g, k)) ==> canonical(g) == g[best_index(g)].info,
{
    lemma_best_exists(g);
    let i = choose|i: int| is_best_index(g, i);
    lemma_best_index_unique(g, i, best_index(g));
}


/// The codec that the prober names `name`: `mp3` or `vorbis`.
pub open spec fn codec_named(name: Seq<char>) -> Option<AudioCodec> {
    if name == seq!['m', 'p', '3'] {
        Some(AudioCodec::Mp3)
    } else if name == seq!['v', 'o', 'r', 'b', 'i', 's'] {
        Some(AudioCodec::Vorbis)
    } else {
        None
    }
}

impl AudioFingerprint {
    /// The fingerprint of an audio stream as the prober reports it: codec name,
    /// bit rate and sample rate as decimal text. None for another codec or a
    /// number that does not parse.
    pub fn from_probe(codec_name: &str, bit_rate: &str, sample_rate: &str) -> (r: Option<Self>)
        ensures
            r matches Some(f) ==> Some(f.codec) == codec_named(codec_name@) && Some(f.bit_rate)
                == parse_u32(bit_rate@) && Some(f.sample_rate) == parse_u32(sample_rate@),
            r is None ==> codec_named(codec_name@) is None || parse_u32(bit_rate@) is None
                || parse_u32(sample_rate@) is None,
    {
        let mp3 = string_of(&vec!['m', 'p', '3']);
        let vorbis = string_of(&vec!['v', 'o', 'r', 'b', 'i', 's']);
        let name = string_of(&chars_of(codec_name));
        let codec = if name == mp3 {
            AudioCodec::Mp3
        } else if name == vorbis {
            AudioCodec::Vorbis
        } else {
            return None;
        };
        let b = match parse_u32_str(bit_rate) {
            Some(b) => b,
            None => return None,
        };
        let sr = match parse_u32_str(sample_rate) {
            Some(v) => v,
            None => return None,
        };
        Some(AudioFingerprint { bit_rate: b, sample_rate: sr, codec })
    }
}


/// A record is in the group of `k` exactly when it is in `s` with key `k`.
pub proof fn lemma_group_of_contains(s: Seq<OsuBeatmapTrackInfo>, k: (Seq<char>, Seq<char>), x: OsuBeatmapTrackInfo)
    ensures
        group_of(s, k).contains(x) <==> s.contains(x) && song_key(x) == k,
    decreases s.len(),
{
    if s.len() > 0 {
        let p = s.drop_last();
        lemma_group_of_contains(p, k, x);
        let gp = group_of(p, k);
        if group_of(s, k).contains(x) {
            let w = choose|w: int| 0 <= w < group_of(s, k).len() && group_of(s, k)[w] == x;
            if w < gp.len() {
                assert(gp[w] == x);
                let j = choose|j: int| 0 <= j < p.len() && p[j] == x;
                assert(s[j] == x);
            } else {
                assert(s[s.len() - 1] == x);
            }
        }
        if s.contains(x) && song_key(x) == k {
            let j = choose|j: int| 0 <= j < s.len() && s[j] == x;
            if j < s.len() - 1 {
                assert(p[j] == x);
                let w = choose|w: int| 0 <= w < gp.len() && gp[w] == x;
                if song_key(s.last()) == k {
                    assert(gp.push(s.last())[w] == x);
                }
            } else {
                assert(gp.push(s.last())[gp.len() as int] == x);
            }
        }
    }
}

/// The keys of the groups are the keys of the records, each once.
pub proof fn lemma_group_keys_exact(s: Seq<OsuBeatmapTrackInfo>)
    ensures
        forall|q: int| 0 <= q < group_keys(s).len() ==> exists|j: int|
            0 <= j < s.len() && song_key(s[j]) == #[trigger] group_keys(s)[q],
        forall|q1: int, q2: int|
            0 <= q1 < group_keys(s).len() && 0 <= q2 < group_keys(s).len() && q1 != q2
                ==> #[trigger] group_keys(s)[q1] != #[trigger] group_keys(s)[q2],
    decreases s.len(),
{
    if s.len() > 0 {
        let p = s.drop_last();
        lemma_group_keys_exact(p);
        let ks = group_keys(s);
        let kp = group_keys(p);
        assert forall|q: int| 0 <= q < ks.len() implies exists|j: int|
            0 <= j < s.len() && song_key(s[j]) == #[trigger] ks[q] by {
            if q < kp.len() {
                assert(ks[q] == kp[q]);
                let j = choose|j: int| 0 <= j < p.len() && song_key(p[j]) == kp[q];
                assert(s[j] == p[j]);
            } else {
                assert(s[s.len() - 1] == s.last());
            }
        }
        assert forall|q1: int, q2: int|
            0 <= q1 < ks.len() && 0 <= q2 < ks.len() && q1 != q2 implies #[trigger] ks[q1]
            != #[trigger] ks[q2] by {
            if q1 < kp.len() && q2 < kp.len() {
                assert(ks[q1] == kp[q1] && ks[q2] == kp[q2]);
            } else if q1 < kp.len() {
                assert(ks[q1] == kp[q1]);
                assert(!kp.contains(song_key(s.last())));
            } else if q2 < kp.len() {
                assert(ks[q2] == kp[q2]);
                assert(!kp.contains(song_key(s.last())));
            }
        }
    }
}


/// The song key of an output record.
pub open spec fn record_key(h: OsuBeatmapInfoHolderSimple) -> (Seq<char>, Seq<char>) {
    (lower_of(h.info.title@), lower_of(h.info.artist@))
}

/// Each record of the output stands for the group of its position: it is the
/// group's canonical record, with the best member's title, artist, audio file,
/// beatmap file and audio extension, and the group's key. With no background
/// in the group it is the best member as it is; otherwise the background, its
/// extension and the set id come from the newest member with a background.
pub proof fn lemma_deduplicated_record(s: Seq<OsuBeatmapTrackInfo>, q: int)
    requires
        0 <= q < deduplicated(s).len(),
    ensures
        ({
            let g = group_of(s, group_keys(s)[q]);
            let b = g[best_index(g)].info;
            let r = deduplicated(s)[q];
            &&& g.len() > 0
            &&& is_best_index(g, best_index(g))
            &&& r == canonical(g)
            &&& r.info == b.info
            &&& r.audio == b.audio
            &&& r.beatmap == b.beatmap
            &&& r.extensions.0 == b.extensions.0
            &&& record_key(r) == group_keys(s)[q]
            &&& (!(exists|k: int| is_background_index(g, k)) ==> r == b)
            &&& (g.len() >= 2 && (exists|k: int| is_background_index(g, k)) ==> {
                let m = g[background_index(g)].info;
                &&& is_background_index(g, background_index(g))
                &&& r.background == m.background
                &&& r.extensions.1 == m.extensions.1
                &&& r.beatmapset_id == m.beatmapset_id
            })
        }),
{
    let ks = group_keys(s);
    let k = ks[q];
    let g = group_of(s, k);
    lemma_group_keys_exact(s);
    let j = choose|j: int| 0 <= j < s.len() && song_key(s[j]) == k;
    lemma_group_holds_member(s, j);
    lemma_background_upgrade_keeps_audio(g);
    lemma_group_members_share_key(s, k, best_index(g));
    if exists|w: int| is_background_index(g, w) {
        let w = choose|w: int| is_background_index(g, w);
        lemma_background_index_unique(g, w, background_index(g));
    }
}

/// Records whose titles and artists match case-insensitively, `a` with `b`
/// and `b` with `c`, are stood for by exactly one record of the output,
/// whatever the order of the input.
pub proof fn lemma_one_record_per_song(s: Seq<OsuBeatmapTrackInfo>, a: int, b: int, c: int)
    requires
        0 <= a < s.len(),
        0 <= b < s.len(),
        0 <= c < s.len(),
        song_key(s[a]) == song_key(s[b]),
        song_key(s[b]) == song_key(s[c]),
    ensures
        exists|q: int|
            0 <= q < deduplicated(s).len() && record_key(#[trigger] deduplicated(s)[q]) == song_key(s[a])
                && record_key(deduplicated(s)[q]) == song_key(s[c]) && forall|q2: int|
                0 <= q2 < deduplicated(s).len() && record_key(#[trigger] deduplicated(s)[q2])
                    == song_key(s[a]) ==> q2 == q,
{
    let ks = group_keys(s);
    lemma_group_holds_member(s, a);
    lemma_group_keys_exact(s);
    let q = choose|q: int| 0 <= q < ks.len() && ks[q] == song_key(s[a]);
    lemma_deduplicated_record(s, q);
    assert forall|q2: int|
        0 <= q2 < deduplicated(s).len() && record_key(#[trigger] deduplicated(s)[q2]) == song_key(s[a])
            implies q2 == q by {
        lemma_deduplicated_record(s, q2);
    }
}

/// Every record of the output of `s1` is one of the output of `s2` when both
/// hold the same records and no group holds a set id twice.
proof fn lemma_deduplicated_included(s1: Seq<OsuBeatmapTrackInfo>, s2: Seq<OsuBeatmapTrackInfo>, q: int)
    requires
        0 <= q < deduplicated(s1).len(),
        forall|x: OsuBeatmapTrackInfo| s1.contains(x) <==> s2.contains(x),
        forall|k: (Seq<char>, Seq<char>)| distinct_set_ids(#[trigger] group_of(s1, k)),
        forall|k: (Seq<char>, Seq<char>)| distinct_set_ids(#[trigger] group_of(s2, k)),
    ensures
        deduplicated(s2).contains(deduplicated(s1)[q]),
{
    let k = group_keys(s1)[q];
    lemma_deduplicated_record(s1, q);
    lemma_group_keys_exact(s1);
    let j = choose|j: int| 0 <= j < s1.len() && song_key(s1[j]) == k;
    assert(s1.contains(s1[j]));
    let j2 = choose|j2: int| 0 <= j2 < s2.len() && s2[j2] == s1[j];
    lemma_group_holds_member(s2, j2);
    let ks2 = group_keys(s2);
    let p = choose|p: int| 0 <= p < ks2.len() && ks2[p] == k;
    let g1 = group_of(s1, k);
    let g2 = group_of(s2, k);
    assert forall|x: OsuBeatmapTrackInfo| g1.contains(x) <==> g2.contains(x) by {
        lemma_group_of_contains(s1, k, x);
        lemma_group_of_contains(s2, k, x);
    }
    lemma_selection_order_independent(g1, g2);
    assert(deduplicated(s2)[p] == canonical(g2));
}

/// Deduplication does not depend on the order of its input: two inputs that
/// hold the same records, where no group holds a set id twice, give the same
/// records.
pub proof fn lemma_deduplication_order_independent(s1: Seq<OsuBeatmapTrackInfo>, s2: Seq<OsuBeatmapTrackInfo>)
    requires
        forall|x: OsuBeatmapTrackInfo| s1.contains(x) <==> s2.contains(x),
        forall|k: (Seq<char>, Seq<char>)| distinct_set_ids(#[trigger] group_of(s1, k)),
        forall|k: (Seq<char>, Seq<char>)| distinct_set_ids(#[trigger] group_of(s2, k)),
    ensures
        forall|r: OsuBeatmapInfoHolderSimple| deduplicated(s1).contains(r) <==> deduplicated(s2).contains(r),
{
    assert forall|r: OsuBeatmapInfoHolderSimple| deduplicated(s1).contains(r) <==> deduplicated(s2).contains(r) by {
        if deduplicated(s1).contains(r) {
            let q = choose|q: int| 0 <= q < deduplicated(s1).len() && deduplicated(s1)[q] == r;
            lemma_deduplicated_included(s1, s2, q);
        }
        if deduplicated(s2).contains(r) {
            let q = choose|q: int| 0 <= q < deduplicated(s2).len() && deduplicated(s2)[q] == r;
            lemma_deduplicated_included(s2, s1, q);
        }
    }
}

/// A member with a lower score than another member of its group never wins,
/// whatever else the group holds: with an MP3 stream at 192000 beside a Vorbis
/// stream at 160000, the MP3 one (1,536,000 against 1,600,000) is not chosen.
pub proof fn lemma_lower_score_never_wins(g: Seq<OsuBeatmapTrackInfo>, i: int, j: int)
    requires
        0 <= i < g.len(),
        0 <= j < g.len(),
        score(g[i]) > score(g[j]),
    ensures
        best_index(g) != j,
        is_best_index(g, best_index(g)),
{
    lemma_best_exists(g);
    let w = choose|w: int| is_best_index(g, w);
    lemma_best_index_unique(g, w, best_index(g));
    assert(!outranks(g[i], g[best_index(g)]));
}

} // verus!
