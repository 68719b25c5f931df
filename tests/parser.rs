use osu_export::beatmap_text::{assemble_hierarchy, get_osu_beatmap_sections, ParseError};
use osu_export::classic::Osu40BeatmapSet;
use osu_export::model::{BasicSongInfo, OsuBeatmapInfoExtracted};

const VALID: &str = "osu file format v14\r\n\r\n[General]\r\nAudioFilename: audio.mp3\r\nAudioLeadIn: 0\r\n\r\n[Metadata]\r\nTitle:Romaji Title\r\nTitleUnicode:Unicode Title\r\nArtist:Romaji Artist\r\nArtistUnicode:Unicode Artist\r\n\r\n[Events]\r\n//Background and Video events\r\n0,0,\"bg.jpg\",0,0\r\n";

#[test]
fn parses_valid_beatmap() {
    let x = OsuBeatmapInfoExtracted::parse(VALID).unwrap();
    let a = x.ascii_opt.unwrap();
    assert_eq!(a.title, "Romaji Title");
    assert_eq!(a.artist, "Romaji Artist");
    assert_eq!(x.unicode.title, "Unicode Title");
    assert_eq!(x.unicode.artist, "Unicode Artist");
    assert_eq!(x.background, Some("bg.jpg".to_string()));
    assert_eq!(x.audio, "audio.mp3");
}

#[test]
fn missing_metadata_section_fails() {
    let text = "[General]\nAudioFilename: a.mp3\n[Events]\n";
    assert_eq!(OsuBeatmapInfoExtracted::parse(text).err(), Some(ParseError::MissingMetadata));
}

#[test]
fn each_error_variant() {
    assert_eq!(OsuBeatmapInfoExtracted::parse("").err(), Some(ParseError::MissingGeneral));
    assert_eq!(
        OsuBeatmapInfoExtracted::parse("[General]\nAudioFilename:a.mp3\n[Metadata]\nTitle:t\nArtist:a").err(),
        Some(ParseError::MissingAudioFilename)
    );
    assert_eq!(
        OsuBeatmapInfoExtracted::parse("[General]\nAudioFilename: a\n[Metadata]\nArtist:a").err(),
        Some(ParseError::MissingTitle)
    );
    assert_eq!(
        OsuBeatmapInfoExtracted::parse("[General]\nAudioFilename: a\n[Metadata]\nTitle:t").err(),
        Some(ParseError::MissingArtist)
    );
}

#[test]
fn malformed_file_skipped_valid_one_kept() {
    let set = Osu40BeatmapSet { beatmap_folder: "Songs/123 Some Song".to_string() };
    let bad = OsuBeatmapInfoExtracted::parse("[General]\nAudioFilename: a.mp3\n");
    assert!(bad.is_err());
    let good = OsuBeatmapInfoExtracted::parse(VALID).unwrap();
    let path = "Songs/123 Some Song/map.osu".to_string();
    let h = set.record_with(123, &path, &good, true, true).unwrap();
    assert_eq!(h.audio, "Songs/123 Some Song/audio.mp3");
    assert_eq!(h.background, Some("Songs/123 Some Song/bg.jpg".to_string()));
    assert_eq!(h.extensions, (Some("mp3".to_string()), Some("jpg".to_string())));
    assert_eq!(h.beatmapset_id, 123);
    assert_eq!(h.ascii.title, "Romaji Title");
    assert!(set.record_with(123, &path, &good, false, true).is_none());
}

#[test]
fn unicode_pair_needs_both_fields() {
    let text = "[General]\nAudioFilename: a.ogg\n[Metadata]\nTitle:Plain\nArtist:Someone\nTitleUnicode:Only\n";
    let x = OsuBeatmapInfoExtracted::parse(text).unwrap();
    assert!(x.ascii_opt.is_none());
    assert_eq!(x.unicode.title, "Plain");
    assert_eq!(x.background, None);
}

#[test]
fn metadata_value_keeps_leading_space_and_later_line_wins() {
    let text = "[General]\nAudioFilename: first.mp3\nAudioFilename: second.mp3\n[Metadata]\nTitle: Spaced\nArtist:A:B\n";
    let x = OsuBeatmapInfoExtracted::parse(text).unwrap();
    assert_eq!(x.audio, "second.mp3");
    assert_eq!(x.unicode.title, " Spaced");
    assert_eq!(x.unicode.artist, "A:B");
}

#[test]
fn sections_are_lowercased_and_later_duplicate_wins() {
    let text = "preamble\n[ General ]\nx\n\n[GENERAL]\nAudioFilename: b.mp3\n  [Metadata]  \nTitle:t\nArtist:a\n";
    let secs = get_osu_beatmap_sections(text);
    assert_eq!(secs.sections.len(), 3);
    assert_eq!(secs.sections[0].0, "general");
    assert_eq!(secs.sections[0].1, vec!["x".to_string()]);
    assert_eq!(secs.sections[2].0, "metadata");
    let x = OsuBeatmapInfoExtracted::parse(text).unwrap();
    assert_eq!(x.audio, "b.mp3");
}

#[test]
fn hierarchy_groups_runs() {
    let items = vec![(false, 1), (true, 2), (false, 3), (true, 4), (true, 5), (false, 6)];
    assert_eq!(assemble_hierarchy(items), vec![vec![1], vec![2, 3], vec![4], vec![5, 6]]);
    let empty: Vec<(bool, u8)> = vec![];
    assert!(assemble_hierarchy(empty).is_empty());
}

#[test]
fn filter_ascii_drops_non_ascii() {
    let info = BasicSongInfo { title: "Ünïcode Tïtle".to_string(), artist: "日本 Artist".to_string() };
    let f = info.filter_ascii();
    assert_eq!(f.title, "ncode Ttle");
    assert_eq!(f.artist, " Artist");
}

#[test]
fn reparsing_rendered_sections_gives_same_metadata() {
    let secs = get_osu_beatmap_sections(VALID);
    let text = secs.render();
    assert_eq!(text, "[general]\nAudioFilename: audio.mp3\nAudioLeadIn: 0\n[metadata]\nTitle:Romaji Title\nTitleUnicode:Unicode Title\nArtist:Romaji Artist\nArtistUnicode:Unicode Artist\n[events]\n//Background and Video events\n0,0,\"bg.jpg\",0,0");
    let again = get_osu_beatmap_sections(&text);
    assert_eq!(again.sections, secs.sections);
    let first = OsuBeatmapInfoExtracted::parse(VALID).unwrap();
    let second = OsuBeatmapInfoExtracted::parse(&text).unwrap();
    assert_eq!(first.audio, second.audio);
    assert_eq!(first.background, second.background);
    assert_eq!(first.unicode.title, second.unicode.title);
    assert_eq!(first.unicode.artist, second.unicode.artist);
    assert_eq!(first.ascii_opt.map(|a| a.title), second.ascii_opt.map(|a| a.title));
}

#[test]
fn reparsing_sections_in_another_order_gives_same_metadata() {
    let mut secs = get_osu_beatmap_sections(VALID);
    secs.sections.reverse();
    let text = secs.render();
    assert!(text.starts_with("[events]"));
    let first = OsuBeatmapInfoExtracted::parse(VALID).unwrap();
    let second = OsuBeatmapInfoExtracted::parse(&text).unwrap();
    assert_eq!(first.audio, second.audio);
    assert_eq!(first.background, second.background);
    assert_eq!(first.unicode.title, second.unicode.title);
    assert_eq!(first.ascii_opt.map(|a| a.artist), second.ascii_opt.map(|a| a.artist));
}
