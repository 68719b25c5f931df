use osu_export::dedup::{deduplicate_infos, AudioCodec, AudioFingerprint, OsuBeatmapTrackInfo};
use osu_export::model::{BasicSongInfo, OsuBeatmapInfoHolderSimple};

fn record(title: &str, artist: &str, id: u64, audio: &str, background: Option<&str>) -> OsuBeatmapInfoHolderSimple {
    OsuBeatmapInfoHolderSimple {
        info: BasicSongInfo { title: title.to_string(), artist: artist.to_string() },
        beatmapset_id: id,
        background: background.map(|b| b.to_string()),
        audio: audio.to_string(),
        beatmap: format!("{}.osu", audio),
        extensions: (Some("mp3".to_string()), background.map(|_| "jpg".to_string())),
    }
}

fn track(info: OsuBeatmapInfoHolderSimple, bit_rate: u32, codec: AudioCodec) -> OsuBeatmapTrackInfo {
    OsuBeatmapTrackInfo { info, fingerprint: AudioFingerprint { bit_rate, sample_rate: 44100, codec } }
}

#[test]
fn higher_bit_rate_wins_regardless_of_set_id() {
    let candidates = vec![
        track(record("Song", "Artist", 10, "a.mp3", None), 128000, AudioCodec::Mp3),
        track(record("Song", "Artist", 5, "b.mp3", None), 320000, AudioCodec::Mp3),
    ];
    let out = deduplicate_infos(&candidates);
    assert_eq!(out.len(), 1);
    assert_eq!(out[0].audio, "b.mp3");
    assert_eq!(out[0].beatmapset_id, 5);
}

#[test]
fn vorbis_factor_beats_higher_mp3_bit_rate() {
    let candidates = vec![
        track(record("Song", "Artist", 1, "mp3.mp3", None), 192000, AudioCodec::Mp3),
        track(record("Song", "Artist", 2, "vorbis.ogg", None), 160000, AudioCodec::Vorbis),
    ];
    let out = deduplicate_infos(&candidates);
    assert_eq!(out.len(), 1);
    assert_eq!(out[0].audio, "vorbis.ogg");
}

#[test]
fn equal_score_newer_set_wins() {
    let candidates = vec![
        track(record("Song", "Artist", 3, "old.mp3", None), 200000, AudioCodec::Mp3),
        track(record("Song", "Artist", 9, "new.mp3", None), 200000, AudioCodec::Mp3),
    ];
    let out = deduplicate_infos(&candidates);
    assert_eq!(out[0].audio, "new.mp3");
    assert_eq!(out[0].beatmapset_id, 9);
}

#[test]
fn grouping_is_case_insensitive_and_keeps_first_order() {
    let candidates = vec![
        track(record("Alpha", "X", 1, "a1", None), 100, AudioCodec::Mp3),
        track(record("Beta", "Y", 2, "b1", None), 100, AudioCodec::Mp3),
        track(record("ALPHA", "x", 3, "a2", None), 100, AudioCodec::Mp3),
        track(record("alpha", "X", 4, "a3", None), 50, AudioCodec::Mp3),
    ];
    let out = deduplicate_infos(&candidates);
    assert_eq!(out.len(), 2);
    assert_eq!(out[0].audio, "a2");
    assert_eq!(out[1].audio, "b1");
}

#[test]
fn grouping_does_not_depend_on_order() {
    let a = || track(record("Tune", "Band", 1, "t1", None), 100, AudioCodec::Mp3);
    let b = || track(record("TUNE", "band", 2, "t2", None), 300, AudioCodec::Mp3);
    let c = || track(record("tune", "BAND", 3, "t3", None), 200, AudioCodec::Mp3);
    let first = deduplicate_infos(&vec![a(), b(), c()]);
    let second = deduplicate_infos(&vec![c(), a(), b()]);
    assert_eq!(first.len(), 1);
    assert_eq!(second.len(), 1);
    assert_eq!(first[0].audio, "t2");
    assert_eq!(second[0].audio, "t2");
}

#[test]
fn background_is_upgraded_from_newest_member_with_one() {
    let candidates = vec![
        track(record("Song", "Artist", 4, "best.mp3", None), 320000, AudioCodec::Mp3),
        track(record("Song", "Artist", 7, "other.mp3", Some("bg7.jpg")), 128000, AudioCodec::Mp3),
        track(record("Song", "Artist", 6, "third.mp3", Some("bg6.png")), 128000, AudioCodec::Mp3),
    ];
    let out = deduplicate_infos(&candidates);
    assert_eq!(out.len(), 1);
    assert_eq!(out[0].audio, "best.mp3");
    assert_eq!(out[0].info.title, "Song");
    assert_eq!(out[0].background, Some("bg7.jpg".to_string()));
    assert_eq!(out[0].beatmapset_id, 7);
    assert_eq!(out[0].extensions, (Some("mp3".to_string()), Some("jpg".to_string())));
}

#[test]
fn no_background_anywhere_keeps_best_member() {
    let mut lone = record("Song", "Artist", 4, "best.mp3", None);
    lone.extensions.1 = Some("png".to_string());
    let candidates = vec![
        track(lone, 320000, AudioCodec::Mp3),
        track(record("Song", "Artist", 8, "other.mp3", None), 1000, AudioCodec::Mp3),
    ];
    let out = deduplicate_infos(&candidates);
    assert_eq!(out[0].beatmapset_id, 4);
    assert_eq!(out[0].background, None);
    assert_eq!(out[0].extensions.1, Some("png".to_string()));
}

#[test]
fn single_member_group_is_kept_as_is() {
    let mut lone = record("Solo", "One", 4, "solo.mp3", None);
    lone.extensions.1 = Some("png".to_string());
    let out = deduplicate_infos(&vec![track(lone, 1, AudioCodec::Vorbis)]);
    assert_eq!(out.len(), 1);
    assert_eq!(out[0].extensions.1, Some("png".to_string()));
}

#[test]
fn empty_input_gives_empty_output() {
    assert!(deduplicate_infos(&vec![]).is_empty());
}
