use playlist_core::csv::{csv_escape, csv_split};
use playlist_core::emit::{build_csv, build_m3u8, build_txt, resolve_track_path};
use playlist_core::num::{i64_to_chars, parse_i64};
use playlist_core::text::from_chars;
use playlist_core::track::{AudioMetadata, FsEntry, FsView, PlaylistSaveOptions, Track};

fn cv(s: &str) -> Vec<char> {
    s.chars().collect()
}

fn opts(mode: &str, root: Option<&str>, format: &str) -> PlaylistSaveOptions {
    PlaylistSaveOptions {
        path_mode: mode.to_string(),
        music_root: root.map(|r| r.to_string()),
        format: format.to_string(),
    }
}

fn track(title: &str, artist: &str, duration: i64, rel: &str, abs: &str) -> Track {
    Track {
        title: title.to_string(),
        artist: artist.to_string(),
        duration,
        relative_path: rel.to_string(),
        absolute_path: abs.to_string(),
    }
}

#[test]
fn csv_escape_plain_field_unchanged() {
    assert_eq!(csv_escape("One More Time"), "One More Time");
}

#[test]
fn csv_escape_quotes_comma_and_quote() {
    assert_eq!(csv_escape("Song, \"Title\""), "\"Song, \"\"Title\"\"\"");
}

#[test]
fn csv_escape_quotes_newline() {
    assert_eq!(csv_escape("a\nb"), "\"a\nb\"");
}

#[test]
fn csv_split_respects_quotes() {
    let fields = csv_split("\"Song, Title\",\"Art,ist\",180,\"../tracks/a.mp3\"");
    assert_eq!(
        fields,
        vec![
            "Song, Title".to_string(),
            "Art,ist".to_string(),
            "180".to_string(),
            "../tracks/a.mp3".to_string()
        ]
    );
}

#[test]
fn csv_split_reads_doubled_quote() {
    let fields = csv_split("\"he said \"\"hi\"\"\",x");
    assert_eq!(fields, vec!["he said \"hi\"".to_string(), "x".to_string()]);
}

#[test]
fn csv_split_empty_line_is_one_empty_field() {
    assert_eq!(csv_split(""), vec![String::new()]);
}

#[test]
fn csv_escape_then_split_round_trips() {
    let original = "comma, and \"quote\"";
    let escaped = csv_escape(original);
    let fields = csv_split(&escaped);
    assert_eq!(fields, vec![original.to_string()]);
}

#[test]
fn parse_i64_reads_plain_and_signed() {
    assert_eq!(parse_i64(&cv("215")), Some(215));
    assert_eq!(parse_i64(&cv("-1")), Some(-1));
    assert_eq!(parse_i64(&cv("+7")), Some(7));
    assert_eq!(parse_i64(&cv("007")), Some(7));
}

#[test]
fn parse_i64_rejects_junk_and_overflow() {
    assert_eq!(parse_i64(&cv("")), None);
    assert_eq!(parse_i64(&cv("-")), None);
    assert_eq!(parse_i64(&cv("12a")), None);
    assert_eq!(parse_i64(&cv("9223372036854775807")), Some(i64::MAX));
    assert_eq!(parse_i64(&cv("9223372036854775808")), None);
    assert_eq!(parse_i64(&cv("-9223372036854775808")), Some(i64::MIN));
    assert_eq!(parse_i64(&cv("-9223372036854775809")), None);
}

#[test]
fn i64_renders_decimal() {
    assert_eq!(from_chars(&i64_to_chars(0)), "0");
    assert_eq!(from_chars(&i64_to_chars(215)), "215");
    assert_eq!(from_chars(&i64_to_chars(-42)), "-42");
    assert_eq!(from_chars(&i64_to_chars(i64::MIN)), "-9223372036854775808");
}

#[test]
fn build_m3u8_writes_header_extinf_and_paths() {
    let tracks = vec![
        track("One More Time", "Daft Punk", 215, "One More Time.flac", "/music/a/One More Time.flac"),
        track("Untitled", "", 0, "b.mp3", "/music/a/b.mp3"),
    ];
    let content = build_m3u8(&tracks, "/music/a", &opts("absolute", None, "m3u8"));
    assert_eq!(
        content,
        "#EXTM3U\n#EXTINF:215,Daft Punk - One More Time\n/music/a/One More Time.flac\n#EXTINF:0,Untitled\n/music/a/b.mp3\n"
    );
}

#[test]
fn build_m3u8_relative_mode_uses_playlist_dir() {
    let tracks = vec![track("T", "A", 10, "x.mp3", "/music/tracks/x.mp3")];
    let content = build_m3u8(&tracks, "/music/Playlists", &opts("relative", None, "m3u8"));
    assert_eq!(content, "#EXTM3U\n#EXTINF:10,A - T\n../tracks/x.mp3\n");
}

#[test]
fn build_txt_is_one_path_per_line() {
    let tracks = vec![
        track("T", "A", 1, "x.mp3", "/m/x.mp3"),
        track("U", "B", 2, "y.mp3", "/m/sub/y.mp3"),
    ];
    let content = build_txt(&tracks, "/m", &opts("relative", None, "txt"));
    assert_eq!(content, "x.mp3\nsub/y.mp3\n");
}

#[test]
fn build_txt_of_nothing_is_a_single_newline() {
    let content = build_txt(&Vec::new(), "/m", &opts("relative", None, "txt"));
    assert_eq!(content, "\n");
}

#[test]
fn build_csv_escapes_fields_and_keeps_order() {
    let tracks = vec![track("Song, Title", "Art,ist", 180, "a.mp3", "/m/a.mp3")];
    let content = build_csv(&tracks, "/m", &opts("absolute", None, "csv"));
    assert_eq!(
        content,
        "title,artist,duration_sec,path\n\"Song, Title\",\"Art,ist\",180,/m/a.mp3\n"
    );
}

#[test]
fn resolve_track_path_absolute_normalizes_backslashes() {
    let t = track("T", "A", 1, "x.mp3", "C:\\music\\x.mp3");
    let p = resolve_track_path(&t, "/pl", &opts("absolute", None, "m3u8"));
    assert_eq!(p, "C:/music/x.mp3");
}

#[test]
fn resolve_track_path_relative_walks_up() {
    let t = track("T", "A", 1, "x.mp3", "/music/tracks/deep/x.mp3");
    let p = resolve_track_path(&t, "/music/Playlists/sub", &opts("relative", None, "m3u8"));
    assert_eq!(p, "../../tracks/deep/x.mp3");
}

#[test]
fn resolve_track_path_from_root_strips_prefix() {
    let t = track("T", "A", 1, "x.mp3", "/music/tracks/x.mp3");
    let p = resolve_track_path(&t, "/pl", &opts("relative-from-root", Some("/music"), "m3u8"));
    assert_eq!(p, "tracks/x.mp3");
}

#[test]
fn resolve_track_path_from_root_falls_back_to_relative() {
    let t = track("T", "A", 1, "x.mp3", "/other/x.mp3");
    let p = resolve_track_path(&t, "/pl", &opts("relative-from-root", Some("/music"), "m3u8"));
    assert_eq!(p, "../other/x.mp3");
    let q = resolve_track_path(&t, "/pl", &opts("relative-from-root", None, "m3u8"));
    assert_eq!(q, "../other/x.mp3");
}

#[test]
fn m3u8_round_trips_absolute_paths_titles_artists() {
    let tracks = vec![
        track("One More Time", "Daft Punk", 215, "a.flac", "/music/a.flac"),
        track("Aerodynamic", "Daft Punk", 212, "b.flac", "/music/b.flac"),
    ];
    let mut fs = FsView::new();
    for t in &tracks {
        fs.push(FsEntry {
            path: t.absolute_path.clone(),
            canonical: t.absolute_path.clone(),
            meta: AudioMetadata {
                title: t.title.clone(),
                artist: t.artist.clone(),
                duration: t.duration,
            },
        });
    }
    let content = build_m3u8(&tracks, "/music", &opts("absolute", None, "m3u8"));
    let back = playlist_core::parse::parse_m3u8(&content, "/music", &fs);
    assert_eq!(back.len(), tracks.len());
    for (orig, got) in tracks.iter().zip(back.iter()) {
        assert_eq!(got.absolute_path, orig.absolute_path);
        assert_eq!(got.title, orig.title);
        assert_eq!(got.artist, orig.artist);
        assert_eq!(got.duration, orig.duration);
    }
}
