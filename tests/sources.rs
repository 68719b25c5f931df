use osu_export::dedup::{AudioCodec, AudioFingerprint};
use osu_export::model::SourceError;
use osu_export::classic::{folder_beatmapset_id, is_beatmap_file, Osu40BeatmapSet, Osu40BeatmapSetsReader};
use osu_export::numbers::parse_u64_chars;
use osu_export::cli::{destination_paths, CliArguments};
use osu_export::lazer::{Osu50BeatmapDbListingItem, Osu50BeatmapSet, Osu50BeatmapSetDbListingItem, Osu50HashResolver};
use osu_export::model::{first_recognized, normalize_sets, BasicSongInfo, OsuBeatmapInfoHolder, OsuBeatmapInfoHolderSimple};
use osu_export::paths::{extension, lower_extension};
use osu_export::reconcile::orphaned_files;

#[test]
fn hashed_path_is_sharded() {
    let r = Osu50HashResolver { folder: "/lazer/files".to_string() };
    assert_eq!(r.hashed_path("abcdef"), "/lazer/files/a/ab/abcdef");
    assert!(r.resolve("abcdef-certainly-not-present").is_err());
}

#[test]
fn set_ids_from_folder_names() {
    assert_eq!(folder_beatmapset_id("Songs/123 Artist - Title"), Some(123));
    assert_eq!(folder_beatmapset_id("Songs/+7"), Some(7));
    assert_eq!(folder_beatmapset_id("Songs/abc 12"), None);
    assert_eq!(folder_beatmapset_id("Songs/ 12"), None);
    assert_eq!(folder_beatmapset_id("Songs/18446744073709551616 big"), None);
    assert_eq!(folder_beatmapset_id("Songs/18446744073709551615 max"), Some(u64::MAX));
    assert_eq!(parse_u64_chars(&"0042".chars().collect()), Some(42));
    assert_eq!(parse_u64_chars(&"-1".chars().collect()), None);
    let set = Osu40BeatmapSet { beatmap_folder: "x/99 s".to_string() };
    assert_eq!(set.beatmapset_id(), Some(99));
}

#[test]
fn beatmap_files_and_extensions() {
    assert!(is_beatmap_file("dir/a map.osu"));
    assert!(!is_beatmap_file("dir/a map.OSU"));
    assert!(!is_beatmap_file("dir/.osu"));
    assert_eq!(extension("a/b.tar.GZ"), Some("GZ".to_string()));
    assert_eq!(lower_extension("a/b.tar.GZ"), Some("gz".to_string()));
    assert_eq!(extension("a.b/c"), None);
    assert_eq!(extension(".."), None);
}

#[test]
fn orphans_exclude_expected_paths() {
    let existing = vec!["d/a.mp3".to_string(), "d/b.mp3".to_string(), "d/c.mp3".to_string()];
    let expected = vec!["d/b.mp3".to_string()];
    assert_eq!(orphaned_files(&existing, &expected), vec!["d/a.mp3".to_string(), "d/c.mp3".to_string()]);
}

#[test]
fn compression_changes_extension() {
    let mut args = CliArguments {
        filename_template: "%t".to_string(),
        osu_source: "src".to_string(),
        songs_destination: "dst".to_string(),
        unicode_filename: true,
        remove_missing_songs: false,
        skip_bitmap: false,
        skip_info: false,
        duplicated: false,
        compress: -1,
    };
    assert!(!args.compressing());
    args.compress = 9;
    assert!(args.compressing());
    args.compress = 10;
    assert!(!args.compressing());
    assert!(args.should_write(false));
    assert!(!args.should_write(true));
}

#[test]
fn destinations_use_mp3_when_compressing() {
    let record = |t: &str, ext: Option<&str>| OsuBeatmapInfoHolderSimple {
        info: BasicSongInfo { title: t.to_string(), artist: "a".to_string() },
        beatmapset_id: 1,
        background: None,
        audio: "x".to_string(),
        beatmap: "m".to_string(),
        extensions: (ext.map(|e| e.to_string()), None),
    };
    let records = vec![record("Mr. X", Some("ogg")), record("Plain", None)];
    assert_eq!(destination_paths(&records, "d", "%t", true), vec!["d/Mr. X.mp3".to_string(), "d/Plain.mp3".to_string()]);
    assert_eq!(destination_paths(&records, "d", "%t", false), vec!["d/Mr. X.ogg".to_string(), "d/Plain".to_string()]);
    assert_eq!(records[0].destination_path("d/", "%t", true), "d/Mr. X.mp3");
}

#[test]
fn lazer_set_records() {
    let set = Osu50BeatmapSet {
        hash_resolver: Osu50HashResolver { folder: "/nowhere/files".to_string() },
        beatmapset_db_info: Osu50BeatmapSetDbListingItem {
            id: 77,
            title: "Plain".to_string(),
            artist: "Ärtist".to_string(),
            title_unicode: None,
            artist_unicode: Some("U".to_string()),
            background: (Some("BG.PNG".to_string()), Some("ffff".to_string())),
            audio: (Some("song.MP3".to_string()), Some("eeee".to_string())),
        },
    };
    let h = set.record_for(&"aud".to_string(), &None, "map".to_string());
    assert_eq!(h.ascii.artist, "rtist");
    assert_eq!(h.unicode.artist, "Ärtist");
    assert_eq!(h.beatmapset_id, 77);
    assert_eq!(h.extensions, (Some("mp3".to_string()), Some("png".to_string())));
    let entries = vec![Osu50BeatmapDbListingItem { set_id: 77, id: 1, path: "x.osu".to_string(), hash: "dddd".to_string() }];
    assert!(set.beatmaps(&entries).is_empty());
}

#[test]
fn normalization_takes_first_beatmap_and_chosen_pair() {
    let holder = |t: &str| OsuBeatmapInfoHolder {
        ascii: BasicSongInfo { title: format!("{} ascii", t), artist: "a".to_string() },
        unicode: BasicSongInfo { title: format!("{} unicode", t), artist: "u".to_string() },
        beatmapset_id: 1,
        background: None,
        audio: t.to_string(),
        beatmap: "m".to_string(),
        extensions: (None, None),
    };
    let sets = vec![vec![holder("one"), holder("two")], vec![], vec![holder("three")]];
    let uni = normalize_sets(&sets, true);
    assert_eq!(uni.len(), 2);
    assert_eq!(uni[0].info.title, "one unicode");
    assert_eq!(uni[1].audio, "three");
    let asc = normalize_sets(&sets, false);
    assert_eq!(asc[0].info.title, "one ascii");
}

#[test]
fn missing_roots_are_not_recognized() {
    let missing = "/this/path/does/not/exist/anywhere";
    assert_eq!(Osu40BeatmapSetsReader::try_from_root(missing).err(), Some(SourceError::NotADirectory));
    assert_eq!(Osu50HashResolver::try_from_root(missing).err(), Some(SourceError::NotADirectory));
}

#[test]
fn probe_values_become_fingerprints() {
    let f = AudioFingerprint::from_probe("vorbis", "160000", "44100").unwrap();
    assert_eq!(f, AudioFingerprint { bit_rate: 160000, sample_rate: 44100, codec: AudioCodec::Vorbis });
    assert_eq!(AudioFingerprint::from_probe("mp3", "320000", "48000").unwrap().codec, AudioCodec::Mp3);
    assert_eq!(AudioFingerprint::from_probe("flac", "1", "1"), None);
    assert_eq!(AudioFingerprint::from_probe("mp3", "4294967296", "1"), None);
    assert_eq!(AudioFingerprint::from_probe("mp3", "N/A", "1"), None);
}

#[test]
fn first_recognized_reader_wins() {
    let all: Vec<Result<u8, String>> = vec![Err("a".to_string()), Ok(1), Ok(2)];
    assert_eq!(first_recognized(all), Ok(1));
    let none: Vec<Result<u8, String>> = vec![Err("a".to_string()), Err("b".to_string())];
    assert_eq!(first_recognized(none), Err(vec!["a".to_string(), "b".to_string()]));
}
