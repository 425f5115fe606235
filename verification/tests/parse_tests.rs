use playlist_core::cover::{encode_data_uri, parse_data_uri};
use playlist_core::index::{list_playlists, str_le};
use playlist_core::parse::{
    parse_csv, parse_extinf_display, parse_m3u8, parse_txt, resolve_path_to_track,
    to_absolute_path,
};
use playlist_core::paths::{compute_relative_path, parent_dir};
use playlist_core::playlist::{build_playlist, default_playlist_dir, parse_playlist};
use playlist_core::track::{build_track, AudioMetadata, FsEntry, FsView, PlaylistSaveOptions};

fn entry(path: &str, canonical: &str, title: &str, artist: &str, duration: i64) -> FsEntry {
    FsEntry {
        path: path.to_string(),
        canonical: canonical.to_string(),
        meta: AudioMetadata {
            title: title.to_string(),
            artist: artist.to_string(),
            duration,
        },
    }
}

fn strs(items: &[&str]) -> Vec<String> {
    items.iter().map(|s| s.to_string()).collect()
}

#[test]
fn m3u8_missing_file_falls_back_to_extinf() {
    let fs = FsView::new();
    let content = "#EXTINF:215,Daft Punk - One More Time\nOne More Time.flac";
    let tracks = parse_m3u8(content, "/music/Playlists", &fs);
    assert_eq!(tracks.len(), 1);
    assert_eq!(tracks[0].title, "One More Time");
    assert_eq!(tracks[0].artist, "Daft Punk");
    assert_eq!(tracks[0].duration, 215);
    assert_eq!(tracks[0].absolute_path, "/music/Playlists/One More Time.flac");
    assert_eq!(tracks[0].relative_path, "One More Time.flac");
}

#[test]
fn m3u8_existing_file_takes_metadata_and_backs_zero_duration() {
    let mut fs = FsView::new();
    fs.push(entry("/pl/a.flac", "/real/a.flac", "Tagged", "Artist", 0));
    let content = "#EXTM3U\n#EXTINF:99,Ignored - Display\na.flac\n";
    let tracks = parse_m3u8(content, "/pl", &fs);
    assert_eq!(tracks.len(), 1);
    assert_eq!(tracks[0].title, "Tagged");
    assert_eq!(tracks[0].artist, "Artist");
    // the lookup's zero duration falls back to the EXTINF value
    assert_eq!(tracks[0].duration, 99);
    assert_eq!(tracks[0].absolute_path, "/real/a.flac");
}

#[test]
fn m3u8_path_without_extinf_uses_file_stem() {
    let fs = FsView::new();
    let tracks = parse_m3u8("tracks/Harder Better.flac", "/m", &fs);
    assert_eq!(tracks.len(), 1);
    assert_eq!(tracks[0].title, "Harder Better");
    assert_eq!(tracks[0].artist, "");
    assert_eq!(tracks[0].duration, 0);
}

#[test]
fn m3u8_extinf_state_resets_after_a_path_line() {
    let fs = FsView::new();
    let tracks = parse_m3u8("#EXTINF:10,A - B\none.mp3\ntwo.mp3", "/m", &fs);
    assert_eq!(tracks.len(), 2);
    assert_eq!(tracks[0].title, "B");
    assert_eq!(tracks[0].duration, 10);
    assert_eq!(tracks[1].title, "two");
    assert_eq!(tracks[1].duration, 0);
}

#[test]
fn m3u8_bad_duration_reads_as_zero() {
    let fs = FsView::new();
    let tracks = parse_m3u8("#EXTINF:abc,T\nx.mp3", "/m", &fs);
    assert_eq!(tracks.len(), 1);
    assert_eq!(tracks[0].duration, 0);
    assert_eq!(tracks[0].title, "T");
}

#[test]
fn txt_skips_comments_and_blanks() {
    let fs = FsView::new();
    let tracks = parse_txt("# a comment\n\n  tracks/a.mp3  \n#another\nb.mp3\n", "/m", &fs);
    assert_eq!(tracks.len(), 2);
    assert_eq!(tracks[0].absolute_path, "/m/tracks/a.mp3");
    assert_eq!(tracks[0].title, "a");
    assert_eq!(tracks[1].absolute_path, "/m/b.mp3");
}

#[test]
fn csv_quoted_row_resolves_fourth_field() {
    let mut fs = FsView::new();
    fs.push(entry(
        "/music/Playlists/../tracks/a.mp3",
        "/music/tracks/a.mp3",
        "Song, Title",
        "Art,ist",
        180,
    ));
    let content = "title,artist,duration_sec,path\n\"Song, Title\",\"Art,ist\",180,\"../tracks/a.mp3\"\n";
    let tracks = parse_csv(content, "/music/Playlists", &fs);
    assert_eq!(tracks.len(), 1);
    assert_eq!(tracks[0].title, "Song, Title");
    assert_eq!(tracks[0].artist, "Art,ist");
    assert_eq!(tracks[0].duration, 180);
    assert_eq!(tracks[0].absolute_path, "/music/tracks/a.mp3");
    assert_eq!(tracks[0].relative_path, "../tracks/a.mp3");
}

#[test]
fn csv_header_is_skipped_only_on_first_row() {
    let fs = FsView::new();
    let content = "TITLE,artist,duration_sec,path\na,b,1,x.mp3\n";
    let tracks = parse_csv(content, "/m", &fs);
    assert_eq!(tracks.len(), 1);
    assert_eq!(tracks[0].absolute_path, "/m/x.mp3");
}

#[test]
fn csv_short_rows_are_skipped() {
    let fs = FsView::new();
    let tracks = parse_csv("a,b,1,x.mp3\nonly,three,fields\n", "/m", &fs);
    assert_eq!(tracks.len(), 1);
}

#[test]
fn empty_content_parses_to_no_tracks() {
    let fs = FsView::new();
    assert_eq!(parse_m3u8("", "/m", &fs).len(), 0);
    assert_eq!(parse_txt("", "/m", &fs).len(), 0);
    assert_eq!(parse_csv("", "/m", &fs).len(), 0);
    assert_eq!(parse_playlist("/m/p.m3u8", "", "/m", &fs).len(), 0);
    assert_eq!(parse_playlist("/m/p.txt", "", "/m", &fs).len(), 0);
    assert_eq!(parse_playlist("/m/p.csv", "", "/m", &fs).len(), 0);
}

#[test]
fn parse_playlist_dispatches_on_extension() {
    let fs = FsView::new();
    // a txt playlist treats EXTINF lines as comments
    let content = "#EXTINF:5,A - B\nx.mp3\n";
    let as_txt = parse_playlist("/m/p.TXT", content, "/m", &fs);
    assert_eq!(as_txt.len(), 1);
    assert_eq!(as_txt[0].title, "x");
    let as_m3u = parse_playlist("/m/p.m3u", content, "/m", &fs);
    assert_eq!(as_m3u[0].title, "B");
}

#[test]
fn build_playlist_dispatches_on_format() {
    let tracks = Vec::new();
    let mk = |format: &str| PlaylistSaveOptions {
        path_mode: "relative".to_string(),
        music_root: None,
        format: format.to_string(),
    };
    assert_eq!(build_playlist(&tracks, "/m", &mk("txt")), "\n");
    assert_eq!(build_playlist(&tracks, "/m", &mk("csv")), "title,artist,duration_sec,path\n");
    assert_eq!(build_playlist(&tracks, "/m", &mk("m3u8")), "#EXTM3U\n");
}

#[test]
fn extinf_display_splits_on_first_dash() {
    let (title, artist, duration) = parse_extinf_display("Daft Punk - One More Time", "x.flac", 215);
    assert_eq!(title, "One More Time");
    assert_eq!(artist, "Daft Punk");
    assert_eq!(duration, 215);
    let (t2, a2, _) = parse_extinf_display("A - B - C", "x.flac", 0);
    assert_eq!(a2, "A");
    assert_eq!(t2, "B - C");
}

#[test]
fn extinf_display_without_separator_is_all_title() {
    let (title, artist, _) = parse_extinf_display("Solo", "x.flac", 1);
    assert_eq!(title, "Solo");
    assert_eq!(artist, "");
}

#[test]
fn extinf_display_empty_falls_back_to_stem() {
    let (title, artist, _) = parse_extinf_display("", "dir/Song.Name.flac", 1);
    assert_eq!(title, "Song.Name");
    assert_eq!(artist, "");
    let (unknown, _, _) = parse_extinf_display("", "..", 1);
    assert_eq!(unknown, "Unknown");
}

#[test]
fn resolve_path_to_track_prefers_lookup() {
    let mut fs = FsView::new();
    fs.push(entry("/abs/x.mp3", "/abs/x.mp3", "T", "A", 7));
    let t = resolve_path_to_track("/abs/x.mp3", "/pl", &fs).unwrap();
    assert_eq!(t.title, "T");
    assert_eq!(t.duration, 7);
    let missing = resolve_path_to_track("other.mp3", "/pl", &FsView::new()).unwrap();
    assert_eq!(missing.title, "other");
    assert_eq!(missing.absolute_path, "/pl/other.mp3");
}

#[test]
fn to_absolute_path_reports_existence() {
    let mut fs = FsView::new();
    fs.push(entry("/pl/a.mp3", "/real/a.mp3", "T", "A", 1));
    let (p, existed) = to_absolute_path("a.mp3", "/pl", &fs);
    assert_eq!(p, "/real/a.mp3");
    assert!(existed);
    let (q, there) = to_absolute_path("b.mp3", "/pl", &fs);
    assert_eq!(q, "/pl/b.mp3");
    assert!(!there);
}

#[test]
fn relative_then_absolute_recovers_the_target() {
    let dir = "/music/Playlists";
    let target = "/music/tracks/a.mp3";
    let rel = compute_relative_path(dir, target);
    assert_eq!(rel, "../tracks/a.mp3");
    let mut fs = FsView::new();
    // canonicalization resolves the `..` the relative path introduced
    fs.push(entry("/music/Playlists/../tracks/a.mp3", target, "T", "A", 1));
    let (back, existed) = to_absolute_path(&rel, dir, &fs);
    assert!(existed);
    assert_eq!(back, target);
}

#[test]
fn compute_relative_path_handles_shared_prefixes() {
    assert_eq!(compute_relative_path("/a/b", "/a/b/c.mp3"), "c.mp3");
    assert_eq!(compute_relative_path("/a/b", "/a/x/c.mp3"), "../x/c.mp3");
    assert_eq!(compute_relative_path("/a", "/a"), "");
    assert_eq!(compute_relative_path("", "/a/b"), "/a/b");
}

#[test]
fn parent_dir_drops_the_last_component() {
    assert_eq!(parent_dir("/music/Playlists/mix.m3u8"), Some("/music/Playlists".to_string()));
    assert_eq!(parent_dir("mix.m3u8"), Some(String::new()));
    assert_eq!(parent_dir("/"), None);
    assert_eq!(parent_dir(""), None);
}

#[test]
fn default_playlist_dir_is_the_playlists_subdir() {
    assert_eq!(default_playlist_dir("/music"), "/music/Playlists");
    assert_eq!(default_playlist_dir("/music/"), "/music/Playlists");
}

#[test]
fn list_playlists_merges_sorts_and_dedups() {
    let root = strs(&["/music/a.m3u", "/music/cover.jpg", "/music/Playlists/b.txt"]);
    let pd = strs(&["/music/Playlists/b.txt", "/music/Playlists/c.csv"]);
    let r = list_playlists(&root, &pd, false);
    assert_eq!(r, strs(&["/music/Playlists/b.txt", "/music/Playlists/c.csv", "/music/a.m3u"]));
}

#[test]
fn list_playlists_scenario_root_and_default_dir() {
    let root = strs(&["/music/a.m3u", "/music/Playlists/b.txt"]);
    let pd = strs(&["/music/Playlists/b.txt"]);
    let r = list_playlists(&root, &pd, false);
    assert_eq!(r, strs(&["/music/Playlists/b.txt", "/music/a.m3u"]));
}

#[test]
fn list_playlists_dedicated_dir_takes_all_formats() {
    let root = strs(&[]);
    let pd = strs(&["/p/a.M3U8", "/p/b.txt", "/p/c.csv", "/p/d.M3U", "/p/e.wav"]);
    let r = list_playlists(&root, &pd, true);
    assert_eq!(r, strs(&["/p/a.M3U8", "/p/b.txt", "/p/c.csv", "/p/d.M3U"]));
}

#[test]
fn list_playlists_without_dedicated_dir_keeps_txt_csv_only() {
    let root = strs(&[]);
    let pd = strs(&["/p/a.m3u8", "/p/b.txt"]);
    let r = list_playlists(&root, &pd, false);
    assert_eq!(r, strs(&["/p/b.txt"]));
}

#[test]
fn list_playlists_is_stable_under_scan_order() {
    let r1 = list_playlists(&strs(&["/m/a.m3u", "/m/b.m3u"]), &strs(&[]), false);
    let r2 = list_playlists(&strs(&["/m/b.m3u", "/m/a.m3u"]), &strs(&[]), false);
    assert_eq!(r1, r2);
}

#[test]
fn str_le_orders_lexicographically() {
    assert!(str_le("/m/a", "/m/b"));
    assert!(str_le("abc", "abcd"));
    assert!(!str_le("abd", "abc"));
    assert!(str_le("same", "same"));
}

#[test]
fn build_track_strips_the_music_root() {
    let meta = AudioMetadata {
        title: "T".to_string(),
        artist: "A".to_string(),
        duration: 3,
    };
    let t = build_track("/music/tracks/x.mp3", "/music", &meta);
    assert_eq!(t.title, "T");
    assert_eq!(t.artist, "A");
    assert_eq!(t.duration, 3);
    assert_eq!(t.absolute_path, "/music/tracks/x.mp3");
    assert_eq!(t.relative_path, "tracks/x.mp3");
    let outside = build_track("/elsewhere/y.mp3", "/music", &meta);
    assert_eq!(outside.relative_path, "/elsewhere/y.mp3");
}

#[test]
fn data_uri_round_trips_cover_bytes() {
    let bytes: Vec<u8> = vec![0xff, 0xd8, 0x00, 0x42];
    let uri = encode_data_uri("image/png", &bytes);
    let parts = parse_data_uri(&uri).unwrap();
    assert_eq!(parts.mime_type, "image/png");
    assert_eq!(parts.bytes, bytes);
}

#[test]
fn data_uri_encoding_is_standard_base64() {
    let bytes: Vec<u8> = vec![1, 2, 3];
    assert_eq!(encode_data_uri("image/jpeg", &bytes), "data:image/jpeg;base64,AQID");
}

#[test]
fn data_uri_rejects_foreign_shapes() {
    assert!(parse_data_uri("http://example.com/x.png").is_none());
    assert!(parse_data_uri("data:image/png,plain").is_none());
    assert!(parse_data_uri("data:image/png;base64,@@@@").is_none());
}

#[test]
fn data_uri_unknown_mime_reads_as_jpeg() {
    let bytes: Vec<u8> = vec![9];
    let uri = encode_data_uri("image/webp", &bytes);
    let parts = parse_data_uri(&uri).unwrap();
    assert_eq!(parts.mime_type, "image/jpeg");
}
