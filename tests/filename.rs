use osu_export::model::{BasicSongInfo, OsuBeatmapInfoHolderSimple};

fn record(title: &str, artist: &str, id: u64, ext: Option<&str>) -> OsuBeatmapInfoHolderSimple {
    OsuBeatmapInfoHolderSimple {
        info: BasicSongInfo { title: title.to_string(), artist: artist.to_string() },
        beatmapset_id: id,
        background: None,
        audio: "audio".to_string(),
        beatmap: "map.osu".to_string(),
        extensions: (ext.map(|e| e.to_string()), None),
    }
}

#[test]
fn template_scenario_strips_slash_and_colon() {
    let r = record("Song/Name", "Art:ist", 42, Some("mp3"));
    assert_eq!(r.file_name("%t - %a #%i"), "SongName - Artist #42.mp3");
    assert_eq!(r.build_path("/music", "%t - %a #%i"), "/music/SongName - Artist #42.mp3");
}

#[test]
fn default_template() {
    let r = record("Title", "Artist", 1234567, Some("ogg"));
    assert_eq!(r.file_name("osu! - %a - %t #%i"), "osu! - Artist - Title #1234567.ogg");
}

#[test]
fn unknown_directive_and_trailing_percent() {
    let r = record("T", "A", 0, None);
    assert_eq!(r.file_name("%x%%/%"), "x%%");
    assert_eq!(r.file_name("100%"), "100%");
}

#[test]
fn forbidden_characters_are_removed() {
    let r = record("a<b>c\"d|e?f*g'h\\i", "", 7, None);
    assert_eq!(r.file_name("%t%a"), "abcdefghi");
}

#[test]
fn join_adds_separator_only_when_needed() {
    let r = record("T", "A", 1, None);
    assert_eq!(r.build_path("dir/", "%t"), "dir/T");
    assert_eq!(r.build_path("", "%t"), "T");
}

#[test]
fn file_name_not_empty_with_one_kept_character() {
    let r = record("?a*", "", 5, None);
    assert_eq!(r.file_name("%t"), "a");
    let r = record("", "<:b:>", 5, None);
    assert_eq!(r.file_name("/%a/"), "b");
}
