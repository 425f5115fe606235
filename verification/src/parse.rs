//! Format parsers: the three decoders that turn playlist file content into
//! an ordered sequence of tracks. Parsing is best-effort: malformed lines
//! are skipped, never fatal. File existence and tag metadata come from an
//! `FsView` snapshot, so every parse is a function of its arguments.
use vstd::prelude::*;
use crate::csv::{csv_split, csv_split_spec};
use crate::num::{parse_i64, parse_i64_spec};
use crate::paths::{file_stem, file_stem_spec, join_path, join_spec, norm_spec, normalize_seps};
use crate::text::{
    find_char, find_spec, find_sub, find_sub_spec, from_chars, has_prefix, has_prefix_ieq,
    lemma_find_spec, split_char, split_spec, starts_with_ieq_lit, starts_with_lit, subvec,
    to_chars, trim, trim_matches, trim_matches_spec, trim_spec, views_of,
};
use crate::track::{fs_lookup, track_views, FsView, Track, TrackModel};

verus! {

/// The title a path line yields when nothing better is known: the file
/// name without extension, or "Unknown".
pub open spec fn stem_or_unknown(p: Seq<char>) -> Seq<char> {
    match file_stem_spec(p) {
        Some(s) => s,
        None => "Unknown"@,
    }
}

fn stem_title(v: &Vec<char>) -> (r: String)
    ensures
        r@ == stem_or_unknown(v@),
{
    match file_stem(v) {
        Some(s) => from_chars(&s),
        None => String::from_str("Unknown"),
    }
}

/// What an `#EXTINF:` display text stands for.
pub ghost struct DisplayInfo {
    pub title: Seq<char>,
    pub artist: Seq<char>,
    pub duration: int,
}

/// The display text split on its first ` - `: artist before, title after;
/// without a separator the whole text is the title. An empty display
/// falls back to the path line's file stem.
pub open spec fn extinf_display_spec(display: Seq<char>, path_line: Seq<char>, duration: int)
    -> DisplayInfo {
    if display.len() == 0 {
        DisplayInfo { title: stem_or_unknown(path_line), artist: Seq::empty(), duration }
    } else {
        match find_sub_spec(display, " - "@) {
            Some(i) => DisplayInfo {
                title: display.skip(i + " - "@.len()),
                artist: display.take(i),
                duration,
            },
            None => DisplayInfo { title: display, artist: Seq::empty(), duration },
        }
    }
}

fn extinf_display(display: &Vec<char>, path_line: &Vec<char>, duration: i64) -> (r: (
    String,
    String,
    i64,
))
    ensures
        ({
            let d = extinf_display_spec(display@, path_line@, duration as int);
            r.0@ == d.title && r.1@ == d.artist && r.2 == d.duration
        }),
{
    if display.len() == 0 {
        return (stem_title(path_line), String::new(), duration);
    }
    match find_sub(display, " - ") {
        Some(i) => {
            proof {
                reveal_strlit(" - ");
            }
            let artist = subvec(display, 0, i);
            let title = subvec(display, i + 3, display.len());
            proof {
                assert(artist@ =~= display@.take(i as int));
                assert(title@ =~= display@.skip(i + 3));
            }
            (from_chars(&title), from_chars(&artist), duration)
        },
        None => (from_chars(display), String::new(), duration),
    }
}

/// Parse the display portion of an `#EXTINF:` line into title, artist and
/// duration, used when the referenced file cannot be read.
pub fn parse_extinf_display(display: &str, path_line: &str, duration: i64) -> (r: (
    String,
    String,
    i64,
))
    ensures
        ({
            let d = extinf_display_spec(display@, path_line@, duration as int);
            r.0@ == d.title && r.1@ == d.artist && r.2 == d.duration
        }),
{
    let dv = to_chars(display);
    let pv = to_chars(path_line);
    extinf_display(&dv, &pv, duration)
}

/// The absolute path a raw playlist reference stands for: normalized,
/// joined under the playlist directory.
pub open spec fn joined_path_spec(raw: Seq<char>, dir: Seq<char>) -> Seq<char> {
    join_spec(dir, norm_spec(raw))
}

/// Resolve a raw reference against the playlist directory: the canonical
/// path when the snapshot knows the file, else the joined path; the flag
/// says which.
pub fn to_absolute_path(raw: &str, playlist_dir: &str, fs: &FsView) -> (r: (String, bool))
    ensures
        ({
            let joined = joined_path_spec(raw@, playlist_dir@);
            match fs_lookup(fs@, joined) {
                Some(e) => r.0@ == e.canonical && r.1 == true,
                None => r.0@ == joined && r.1 == false,
            }
        }),
{
    let rv = to_chars(raw);
    let dirv = to_chars(playlist_dir);
    let rel = normalize_seps(&rv);
    let joined = join_path(&dirv, &rel);
    match fs.lookup(&joined) {
        Some(e) => (e.canonical.clone(), true),
        None => (from_chars(&joined), false),
    }
}

/// The track a path line of a TXT or CSV playlist stands for: metadata
/// from the snapshot when the file exists, else the file stem as title
/// with everything else unknown.
pub open spec fn resolve_ref_spec(
    path_line: Seq<char>,
    dir: Seq<char>,
    fs: Seq<crate::track::FsEntryModel>,
) -> Option<TrackModel> {
    let rel = norm_spec(path_line);
    if rel.len() == 0 {
        None
    } else {
        let joined = join_spec(dir, rel);
        match fs_lookup(fs, joined) {
            Some(e) => Some(
                TrackModel {
                    title: e.title,
                    artist: e.artist,
                    duration: e.duration,
                    relative_path: rel,
                    absolute_path: e.canonical,
                },
            ),
            None => Some(
                TrackModel {
                    title: stem_or_unknown(path_line),
                    artist: Seq::empty(),
                    duration: 0,
                    relative_path: rel,
                    absolute_path: joined,
                },
            ),
        }
    }
}

fn resolve_ref_vec(path_line: &Vec<char>, dirv: &Vec<char>, fs: &FsView) -> (r: Option<Track>)
    ensures
        match r {
            Some(t) => resolve_ref_spec(path_line@, dirv@, fs@) == Some(t@),
            None => resolve_ref_spec(path_line@, dirv@, fs@) is None,
        },
{
    let rel = normalize_seps(path_line);
    if rel.len() == 0 {
        return None;
    }
    let joined = join_path(dirv, &rel);
    match fs.lookup(&joined) {
        Some(e) => Some(
            Track {
                title: e.meta.title.clone(),
                artist: e.meta.artist.clone(),
                duration: e.meta.duration,
                relative_path: from_chars(&rel),
                absolute_path: e.canonical.clone(),
            },
        ),
        None => Some(
            Track {
                title: stem_title(path_line),
                artist: String::new(),
                duration: 0,
                relative_path: from_chars(&rel),
                absolute_path: from_chars(&joined),
            },
        ),
    }
}

/// Resolve one path line to a track, as TXT and CSV playlists do.
pub fn resolve_path_to_track(path_line: &str, playlist_dir: &str, fs: &FsView) -> (r: Option<
    Track,
>)
    ensures
        match r {
            Some(t) => resolve_ref_spec(path_line@, playlist_dir@, fs@) == Some(t@),
            None => resolve_ref_spec(path_line@, playlist_dir@, fs@) is None,
        },
{
    let pv = to_chars(path_line);
    let dirv = to_chars(playlist_dir);
    resolve_ref_vec(&pv, &dirv, fs)
}

/// The pending `#EXTINF:` data carried to the next path line.
pub ghost struct ExtinfState {
    pub duration: int,
    pub display: Seq<char>,
}

/// The state with nothing pending.
pub open spec fn extinf_reset() -> ExtinfState {
    ExtinfState { duration: 0, display: Seq::empty() }
}

/// The duration a digits field yields: parse failures count as 0.
pub open spec fn dur_of(s: Seq<char>) -> int {
    match parse_i64_spec(trim_spec(s)) {
        Some(v) => v,
        None => 0,
    }
}

/// What an `#EXTINF:` line leaves pending: the duration before the first
/// comma, the display text after it.
pub open spec fn extinf_spec(t: Seq<char>) -> ExtinfState {
    let info = t.skip(8);
    match find_spec(info, ',') {
        Some(i) => ExtinfState {
            duration: dur_of(info.take(i)),
            display: trim_spec(info.skip(i + 1)),
        },
        None => ExtinfState { duration: dur_of(info), display: Seq::empty() },
    }
}

/// The track an M3U8 path line yields: live metadata when the file
/// exists (its zero duration backed by the pending one), else the pending
/// `#EXTINF:` data.
pub open spec fn m3u8_track_spec(
    t: Seq<char>,
    dir: Seq<char>,
    fs: Seq<crate::track::FsEntryModel>,
    st: ExtinfState,
) -> TrackModel {
    let rel = norm_spec(t);
    let joined = join_spec(dir, rel);
    match fs_lookup(fs, joined) {
        Some(e) => TrackModel {
            title: e.title,
            artist: e.artist,
            duration: if e.duration > 0 {
                e.duration
            } else {
                st.duration
            },
            relative_path: rel,
            absolute_path: e.canonical,
        },
        None => {
            let d = extinf_display_spec(st.display, t, st.duration);
            TrackModel {
                title: d.title,
                artist: d.artist,
                duration: d.duration,
                relative_path: rel,
                absolute_path: joined,
            }
        },
    }
}

/// The M3U8 reading of a sequence of lines, given the pending state.
pub open spec fn m3u8_lines_spec(
    lines: Seq<Seq<char>>,
    dir: Seq<char>,
    fs: Seq<crate::track::FsEntryModel>,
    st: ExtinfState,
) -> Seq<TrackModel>
    decreases lines.len(),
{
    if lines.len() == 0 {
        Seq::empty()
    } else {
        let t = trim_spec(lines[0]);
        let rest = lines.drop_first();
        if t.len() == 0 {
            m3u8_lines_spec(rest, dir, fs, st)
        } else if has_prefix(t, "#EXTINF:"@) {
            m3u8_lines_spec(rest, dir, fs, extinf_spec(t))
        } else if t[0] == '#' {
            m3u8_lines_spec(rest, dir, fs, st)
        } else {
            seq![m3u8_track_spec(t, dir, fs, st)] + m3u8_lines_spec(rest, dir, fs, extinf_reset())
        }
    }
}

/// The tracks an M3U8/M3U playlist stands for.
pub open spec fn parse_m3u8_spec(
    content: Seq<char>,
    dir: Seq<char>,
    fs: Seq<crate::track::FsEntryModel>,
) -> Seq<TrackModel> {
    m3u8_lines_spec(split_spec(content, '\n'), dir, fs, extinf_reset())
}

fn emit_m3u8_track(
    t: &Vec<char>,
    dirv: &Vec<char>,
    fs: &FsView,
    pend_dur: i64,
    pend_disp: &Vec<char>,
) -> (r: Track)
    ensures
        r@ == m3u8_track_spec(
            t@,
            dirv@,
            fs@,
            ExtinfState { duration: pend_dur as int, display: pend_disp@ },
        ),
{
    let rel = normalize_seps(t);
    let joined = join_path(dirv, &rel);
    match fs.lookup(&joined) {
        Some(e) => {
            let duration = if e.meta.duration > 0 {
                e.meta.duration
            } else {
                pend_dur
            };
            Track {
                title: e.meta.title.clone(),
                artist: e.meta.artist.clone(),
                duration,
                relative_path: from_chars(&rel),
                absolute_path: e.canonical.clone(),
            }
        },
        None => {
            let (title, artist, duration) = extinf_display(pend_disp, t, pend_dur);
            Track {
                title,
                artist,
                duration,
                relative_path: from_chars(&rel),
                absolute_path: from_chars(&joined),
            }
        },
    }
}

/// Parse M3U8/M3U content: `#EXTINF:` lines set pending metadata for the
/// next path line; other `#` lines and blank lines are skipped; each path
/// line becomes one track and resets the pending state.
pub fn parse_m3u8(content: &str, playlist_dir: &str, fs: &FsView) -> (r: Vec<Track>)
    ensures
        track_views(r@) == parse_m3u8_spec(content@, playlist_dir@, fs@),
{
    let cv = to_chars(content);
    let dirv = to_chars(playlist_dir);
    let lines = split_char(&cv, '\n');
    let ghost lviews = views_of(lines@);
    let mut tracks: Vec<Track> = Vec::new();
    let mut pend_dur: i64 = 0;
    let mut pend_disp: Vec<char> = Vec::new();
    let mut i: usize = 0;
    proof {
        assert(lviews.skip(0) =~= lviews);
        assert(track_views(tracks@) =~= Seq::<TrackModel>::empty());
        assert(ExtinfState { duration: pend_dur as int, display: pend_disp@ } == extinf_reset());
        assert(track_views(tracks@) + m3u8_lines_spec(lviews, playlist_dir@, fs@, extinf_reset())
            =~= m3u8_lines_spec(lviews, playlist_dir@, fs@, extinf_reset()));
    }
    while i < lines.len()
        invariant
            i <= lines@.len(),
            lviews == views_of(lines@),
            dirv@ == playlist_dir@,
            parse_m3u8_spec(content@, playlist_dir@, fs@) == track_views(tracks@)
                + m3u8_lines_spec(
                lviews.skip(i as int),
                playlist_dir@,
                fs@,
                ExtinfState { duration: pend_dur as int, display: pend_disp@ },
            ),
        decreases lines.len() - i,
    {
        proof {
            assert(lviews.skip(i as int)[0] == lviews[i as int]);
            assert(lviews.skip(i as int).drop_first() =~= lviews.skip(i + 1));
            reveal_strlit("#EXTINF:");
        }
        let t = trim(&lines[i]);
        if t.len() == 0 {
            // blank line
        } else if starts_with_lit(&t, "#EXTINF:") {
            let info = subvec(&t, 8, t.len());
            proof {
                assert(info@ =~= t@.skip(8));
            }
            match find_char(&info, ',') {
                Some(ci) => {
                    proof {
                        lemma_find_spec(info@, ',');
                    }
                    let dur_part = subvec(&info, 0, ci);
                    proof {
                        assert(dur_part@ =~= info@.take(ci as int));
                    }
                    let dur_trimmed = trim(&dur_part);
                    pend_dur = match parse_i64(&dur_trimmed) {
                        Some(x) => x,
                        None => 0,
                    };
                    let disp_part = subvec(&info, ci + 1, info.len());
                    proof {
                        assert(disp_part@ =~= info@.skip(ci + 1));
                    }
                    pend_disp = trim(&disp_part);
                },
                None => {
                    let dur_trimmed = trim(&info);
                    pend_dur = match parse_i64(&dur_trimmed) {
                        Some(x) => x,
                        None => 0,
                    };
                    pend_disp = Vec::new();
                    proof {
                        assert(pend_disp@ =~= Seq::<char>::empty());
                    }
                },
            }
        } else if t[0] == '#' {
            // other comment, the #EXTM3U header among them
        } else {
            let tr = emit_m3u8_track(&t, &dirv, fs, pend_dur, &pend_disp);
            let ghost oldtracks = tracks@;
            let ghost st = ExtinfState { duration: pend_dur as int, display: pend_disp@ };
            tracks.push(tr);
            pend_dur = 0;
            pend_disp = Vec::new();
            proof {
                assert(pend_disp@ =~= Seq::<char>::empty());
                assert(track_views(tracks@) =~= track_views(oldtracks).push(
                    m3u8_track_spec(t@, playlist_dir@, fs@, st),
                ));
                assert(track_views(oldtracks).push(m3u8_track_spec(t@, playlist_dir@, fs@, st))
                    + m3u8_lines_spec(lviews.skip(i + 1), playlist_dir@, fs@, extinf_reset())
                    =~= track_views(oldtracks) + (seq![
                    m3u8_track_spec(t@, playlist_dir@, fs@, st),
                ] + m3u8_lines_spec(lviews.skip(i + 1), playlist_dir@, fs@, extinf_reset())));
            }
        }
        i = i + 1;
    }
    proof {
        assert(lviews.skip(lviews.len() as int).len() == 0);
        assert(track_views(tracks@) + Seq::<TrackModel>::empty() =~= track_views(tracks@));
    }
    tracks
}

/// The TXT reading of a sequence of lines.
pub open spec fn txt_lines_spec(
    lines: Seq<Seq<char>>,
    dir: Seq<char>,
    fs: Seq<crate::track::FsEntryModel>,
) -> Seq<TrackModel>
    decreases lines.len(),
{
    if lines.len() == 0 {
        Seq::empty()
    } else {
        let t = trim_spec(lines[0]);
        let rest = lines.drop_first();
        if t.len() == 0 || t[0] == '#' {
            txt_lines_spec(rest, dir, fs)
        } else {
            (match resolve_ref_spec(t, dir, fs) {
                Some(m) => seq![m],
                None => Seq::empty(),
            }) + txt_lines_spec(rest, dir, fs)
        }
    }
}

/// The tracks a plain-text playlist stands for.
pub open spec fn parse_txt_spec(
    content: Seq<char>,
    dir: Seq<char>,
    fs: Seq<crate::track::FsEntryModel>,
) -> Seq<TrackModel> {
    txt_lines_spec(split_spec(content, '\n'), dir, fs)
}

/// Parse a plain-text playlist: one path per line, `#` lines and blank
/// lines skipped.
pub fn parse_txt(content: &str, playlist_dir: &str, fs: &FsView) -> (r: Vec<Track>)
    ensures
        track_views(r@) == parse_txt_spec(content@, playlist_dir@, fs@),
{
    let cv = to_chars(content);
    let dirv = to_chars(playlist_dir);
    let lines = split_char(&cv, '\n');
    let ghost lviews = views_of(lines@);
    let mut tracks: Vec<Track> = Vec::new();
    let mut i: usize = 0;
    proof {
        assert(lviews.skip(0) =~= lviews);
        assert(track_views(tracks@) =~= Seq::<TrackModel>::empty());
        assert(track_views(tracks@) + txt_lines_spec(lviews, playlist_dir@, fs@) =~= txt_lines_spec(
            lviews,
            playlist_dir@,
            fs@,
        ));
    }
    while i < lines.len()
        invariant
            i <= lines@.len(),
            lviews == views_of(lines@),
            dirv@ == playlist_dir@,
            parse_txt_spec(content@, playlist_dir@, fs@) == track_views(tracks@) + txt_lines_spec(
                lviews.skip(i as int),
                playlist_dir@,
                fs@,
            ),
        decreases lines.len() - i,
    {
        proof {
            assert(lviews.skip(i as int)[0] == lviews[i as int]);
            assert(lviews.skip(i as int).drop_first() =~= lviews.skip(i + 1));
        }
        let t = trim(&lines[i]);
        if t.len() > 0 && t[0] != '#' {
            match resolve_ref_vec(&t, &dirv, fs) {
                Some(tr) => {
                    let ghost oldtracks = tracks@;
                    let ghost m = tr@;
                    tracks.push(tr);
                    proof {
                        assert(track_views(tracks@) =~= track_views(oldtracks).push(m));
                        assert(track_views(oldtracks).push(m) + txt_lines_spec(
                            lviews.skip(i + 1),
                            playlist_dir@,
                            fs@,
                        ) =~= track_views(oldtracks) + (seq![m] + txt_lines_spec(
                            lviews.skip(i + 1),
                            playlist_dir@,
                            fs@,
                        )));
                    }
                },
                None => {
                    proof {
                        assert(Seq::<TrackModel>::empty() + txt_lines_spec(
                            lviews.skip(i + 1),
                            playlist_dir@,
                            fs@,
                        ) =~= txt_lines_spec(lviews.skip(i + 1), playlist_dir@, fs@));
                    }
                },
            }
        }
        i = i + 1;
    }
    proof {
        assert(lviews.skip(lviews.len() as int).len() == 0);
        assert(track_views(tracks@) + Seq::<TrackModel>::empty() =~= track_views(tracks@));
    }
    tracks
}

/// A header row: its first field starts with "title", case-insensitively.
pub open spec fn is_header_row(t: Seq<char>) -> bool {
    has_prefix_ieq(t, "title"@)
}

/// The CSV reading of a sequence of lines; `first` is true until a
/// non-blank row has been seen.
pub open spec fn csv_lines_spec(
    lines: Seq<Seq<char>>,
    dir: Seq<char>,
    fs: Seq<crate::track::FsEntryModel>,
    first: bool,
) -> Seq<TrackModel>
    decreases lines.len(),
{
    if lines.len() == 0 {
        Seq::empty()
    } else {
        let t = trim_spec(lines[0]);
        let rest = lines.drop_first();
        if t.len() == 0 {
            csv_lines_spec(rest, dir, fs, first)
        } else if first && is_header_row(t) {
            csv_lines_spec(rest, dir, fs, false)
        } else {
            let fields = csv_split_spec(t);
            (if fields.len() < 4 {
                Seq::<TrackModel>::empty()
            } else {
                let pf = trim_matches_spec(trim_spec(fields[3]), '"');
                match resolve_ref_spec(pf, dir, fs) {
                    Some(m) => seq![m],
                    None => Seq::empty(),
                }
            }) + csv_lines_spec(rest, dir, fs, false)
        }
    }
}

/// The tracks a CSV playlist stands for.
pub open spec fn parse_csv_spec(
    content: Seq<char>,
    dir: Seq<char>,
    fs: Seq<crate::track::FsEntryModel>,
) -> Seq<TrackModel> {
    csv_lines_spec(split_spec(content, '\n'), dir, fs, true)
}

/// Parse a CSV playlist (`title,artist,duration_sec,path`): an optional
/// header row is skipped, rows with fewer than four fields are skipped,
/// and the fourth field is the path reference.
pub fn parse_csv(content: &str, playlist_dir: &str, fs: &FsView) -> (r: Vec<Track>)
    ensures
        track_views(r@) == parse_csv_spec(content@, playlist_dir@, fs@),
{
    let cv = to_chars(content);
    let dirv = to_chars(playlist_dir);
    let lines = split_char(&cv, '\n');
    let ghost lviews = views_of(lines@);
    let mut tracks: Vec<Track> = Vec::new();
    let mut first: bool = true;
    let mut i: usize = 0;
    proof {
        assert(lviews.skip(0) =~= lviews);
        assert(track_views(tracks@) =~= Seq::<TrackModel>::empty());
        assert(track_views(tracks@) + csv_lines_spec(lviews, playlist_dir@, fs@, true)
            =~= csv_lines_spec(lviews, playlist_dir@, fs@, true));
    }
    while i < lines.len()
        invariant
            i <= lines@.len(),
            lviews == views_of(lines@),
            dirv@ == playlist_dir@,
            parse_csv_spec(content@, playlist_dir@, fs@) == track_views(tracks@) + csv_lines_spec(
                lviews.skip(i as int),
                playlist_dir@,
                fs@,
                first,
            ),
        decreases lines.len() - i,
    {
        proof {
            assert(lviews.skip(i as int)[0] == lviews[i as int]);
            assert(lviews.skip(i as int).drop_first() =~= lviews.skip(i + 1));
        }
        let t = trim(&lines[i]);
        if t.len() == 0 {
            // blank row
        } else if first && starts_with_ieq_lit(&t, "title") {
            first = false;
        } else {
            let row = from_chars(&t);
            let fields = csv_split(row.as_str());
            proof {
                assert(crate::csv::str_views(fields@) == csv_split_spec(t@));
            }
            if fields.len() >= 4 {
                let f3 = to_chars(fields[3].as_str());
                proof {
                    assert(f3@ == csv_split_spec(t@)[3]);
                }
                let pf = trim_matches(&trim(&f3), '"');
                match resolve_ref_vec(&pf, &dirv, fs) {
                    Some(tr) => {
                        let ghost oldtracks = tracks@;
                        let ghost m = tr@;
                        tracks.push(tr);
                        proof {
                            assert(track_views(tracks@) =~= track_views(oldtracks).push(m));
                            assert(track_views(oldtracks).push(m) + csv_lines_spec(
                                lviews.skip(i + 1),
                                playlist_dir@,
                                fs@,
                                false,
                            ) =~= track_views(oldtracks) + (seq![m] + csv_lines_spec(
                                lviews.skip(i + 1),
                                playlist_dir@,
                                fs@,
                                false,
                            )));
                        }
                    },
                    None => {
                        proof {
                            assert(Seq::<TrackModel>::empty() + csv_lines_spec(
                                lviews.skip(i + 1),
                                playlist_dir@,
                                fs@,
                                false,
                            ) =~= csv_lines_spec(lviews.skip(i + 1), playlist_dir@, fs@, false));
                        }
                    },
                }
            } else {
                proof {
                    assert(Seq::<TrackModel>::empty() + csv_lines_spec(
                        lviews.skip(i + 1),
                        playlist_dir@,
                        fs@,
                        false,
                    ) =~= csv_lines_spec(lviews.skip(i + 1), playlist_dir@, fs@, false));
                }
            }
            first = false;
        }
        i = i + 1;
    }
    proof {
        assert(lviews.skip(lviews.len() as int).len() == 0);
        assert(track_views(tracks@) + Seq::<TrackModel>::empty() =~= track_views(tracks@));
    }
    tracks
}

} // verus!
