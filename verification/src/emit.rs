//! Format builders: the encoders that turn an ordered sequence of tracks
//! into playlist file content, applying the chosen path policy. Every
//! produced file ends in a newline.
use vstd::prelude::*;
use crate::csv::csv_escape_spec;
use crate::num::{i64_str, i64_to_chars};
use crate::paths::{norm_spec, normalize_seps, rel_path_spec, strip_prefix, strip_prefix_spec};
use crate::text::{
    append_chars, from_chars, join_nl, push_lit, string_eq_lit, to_chars, views_of,
};
use crate::track::{track_views, PlaylistSaveOptions, SaveOptsModel, Track, TrackModel};

verus! {

pub proof fn lemma_join_nl_push(lines: Seq<Seq<char>>, x: Seq<char>)
    ensures
        join_nl(lines.push(x)) == join_nl(lines) + x + seq!['\n'],
    decreases lines.len(),
{
    let p = lines.push(x);
    if lines.len() == 0 {
        assert(p[0] == x);
        let e = p.drop_first();
        assert(e =~= Seq::<Seq<char>>::empty());
        assert(e.len() == 0);
        assert(join_nl(e) == Seq::<char>::empty());
        assert(join_nl(p) == x + seq!['\n'] + join_nl(e));
        assert(x + seq!['\n'] + join_nl(e) =~= join_nl(lines) + x + seq!['\n']);
    } else {
        assert(p[0] == lines[0]);
        assert(p.drop_first() =~= lines.drop_first().push(x));
        lemma_join_nl_push(lines.drop_first(), x);
        assert(lines[0] + seq!['\n'] + (join_nl(lines.drop_first()) + x + seq!['\n']) =~= (lines[0]
            + seq!['\n'] + join_nl(lines.drop_first())) + x + seq!['\n']);
    }
}

/// Join built lines into file content, a newline after each.
fn join_lines(lines: &Vec<Vec<char>>) -> (r: Vec<char>)
    ensures
        r@ == join_nl(views_of(lines@)),
{
    let ghost full = views_of(lines@);
    let mut r: Vec<char> = Vec::new();
    let mut i: usize = 0;
    proof {
        assert(full.take(0) =~= Seq::<Seq<char>>::empty());
        assert(r@ =~= join_nl(full.take(0)));
    }
    while i < lines.len()
        invariant
            i <= lines@.len(),
            full == views_of(lines@),
            r@ == join_nl(full.take(i as int)),
        decreases lines.len() - i,
    {
        append_chars(&mut r, &lines[i]);
        r.push('\n');
        proof {
            assert(full.take(i + 1) =~= full.take(i as int).push(full[i as int]));
            lemma_join_nl_push(full.take(i as int), full[i as int]);
            assert(r@ =~= join_nl(full.take(i as int)) + full[i as int] + seq!['\n']);
        }
        i = i + 1;
    }
    proof {
        assert(full.take(full.len() as int) =~= full);
    }
    r
}

/// How one track's location is written under the given options: the
/// normalized absolute path; or the suffix below the music root, falling
/// back to the path relative to the playlist directory; or that relative
/// path itself.
pub open spec fn track_path_spec(abs: Seq<char>, dir: Seq<char>, opts: SaveOptsModel) -> Seq<
    char,
> {
    if opts.path_mode == "absolute"@ {
        norm_spec(abs)
    } else if opts.path_mode == "relative-from-root"@ {
        match opts.music_root {
            Some(root) => match strip_prefix_spec(root, abs) {
                Some(s) => norm_spec(s),
                None => norm_spec(rel_path_spec(dir, abs)),
            },
            None => norm_spec(rel_path_spec(dir, abs)),
        }
    } else {
        norm_spec(rel_path_spec(dir, abs))
    }
}

/// The on-disk text for one track's location, per the options' path mode.
pub fn resolve_track_path(track: &Track, playlist_dir: &str, opts: &PlaylistSaveOptions) -> (r:
    String)
    ensures
        r@ == track_path_spec(track@.absolute_path, playlist_dir@, opts@),
{
    if string_eq_lit(opts.path_mode.as_str(), "absolute") {
        let av = to_chars(track.absolute_path.as_str());
        let n = normalize_seps(&av);
        return from_chars(&n);
    }
    if string_eq_lit(opts.path_mode.as_str(), "relative-from-root") {
        match &opts.music_root {
            Some(root) => {
                let rv = to_chars(root.as_str());
                let av = to_chars(track.absolute_path.as_str());
                match strip_prefix(&rv, &av) {
                    Some(s) => {
                        let n = normalize_seps(&s);
                        return from_chars(&n);
                    },
                    None => {},
                }
            },
            None => {},
        }
    }
    let rel = crate::paths::compute_relative_path(playlist_dir, track.absolute_path.as_str());
    let relv = to_chars(rel.as_str());
    let n = normalize_seps(&relv);
    from_chars(&n)
}

/// The `#EXTINF:` line written for one track: duration, then
/// `artist - title`, or the title alone when the artist is empty.
pub open spec fn extinf_line_spec(t: TrackModel) -> Seq<char> {
    "#EXTINF:"@ + i64_str(t.duration) + seq![','] + (if t.artist.len() > 0 {
        t.artist + " - "@ + t.title
    } else {
        t.title
    })
}

/// The lines written for tracks in M3U8 form: an `#EXTINF:` line then a
/// path line for each track.
pub open spec fn m3u8_build_lines(
    ts: Seq<TrackModel>,
    dir: Seq<char>,
    opts: SaveOptsModel,
) -> Seq<Seq<char>>
    decreases ts.len(),
{
    if ts.len() == 0 {
        Seq::empty()
    } else {
        seq![extinf_line_spec(ts[0]), track_path_spec(ts[0].absolute_path, dir, opts)]
            + m3u8_build_lines(ts.drop_first(), dir, opts)
    }
}

/// The full M3U8 content: the `#EXTM3U` header, then each track's pair of
/// lines, a newline after every line.
pub open spec fn build_m3u8_spec(ts: Seq<TrackModel>, dir: Seq<char>, opts: SaveOptsModel) -> Seq<
    char,
> {
    join_nl(seq!["#EXTM3U"@] + m3u8_build_lines(ts, dir, opts))
}

fn extinf_line(track: &Track) -> (r: Vec<char>)
    ensures
        r@ == extinf_line_spec(track@),
{
    let mut l: Vec<char> = Vec::new();
    push_lit(&mut l, "#EXTINF:");
    let d = i64_to_chars(track.duration);
    append_chars(&mut l, &d);
    l.push(',');
    if !track.artist.as_str().is_empty() {
        let a = to_chars(track.artist.as_str());
        append_chars(&mut l, &a);
        push_lit(&mut l, " - ");
        let t = to_chars(track.title.as_str());
        append_chars(&mut l, &t);
        proof {
            assert(l@ =~= extinf_line_spec(track@));
        }
    } else {
        let t = to_chars(track.title.as_str());
        append_chars(&mut l, &t);
        proof {
            assert(l@ =~= extinf_line_spec(track@));
        }
    }
    l
}

/// Build M3U8/M3U content for the tracks.
pub fn build_m3u8(tracks: &Vec<Track>, playlist_dir: &str, opts: &PlaylistSaveOptions) -> (r:
    String)
    ensures
        r@ == build_m3u8_spec(track_views(tracks@), playlist_dir@, opts@),
{
    let ghost ts = track_views(tracks@);
    let mut lines: Vec<Vec<char>> = Vec::new();
    let mut hdr: Vec<char> = Vec::new();
    push_lit(&mut hdr, "#EXTM3U");
    lines.push(hdr);
    proof {
        assert(ts.skip(0) =~= ts);
        assert(views_of(lines@) =~= seq!["#EXTM3U"@]);
        assert(seq!["#EXTM3U"@] + m3u8_build_lines(ts, playlist_dir@, opts@) =~= views_of(lines@)
            + m3u8_build_lines(ts.skip(0), playlist_dir@, opts@));
    }
    let mut i: usize = 0;
    while i < tracks.len()
        invariant
            i <= tracks@.len(),
            ts == track_views(tracks@),
            seq!["#EXTM3U"@] + m3u8_build_lines(ts, playlist_dir@, opts@) == views_of(lines@)
                + m3u8_build_lines(ts.skip(i as int), playlist_dir@, opts@),
        decreases tracks.len() - i,
    {
        proof {
            assert(ts.skip(i as int)[0] == ts[i as int]);
            assert(ts.skip(i as int).drop_first() =~= ts.skip(i + 1));
        }
        let l1 = extinf_line(&tracks[i]);
        let p = resolve_track_path(&tracks[i], playlist_dir, opts);
        let l2 = to_chars(p.as_str());
        let ghost oldlines = lines@;
        lines.push(l1);
        lines.push(l2);
        proof {
            assert(views_of(lines@) =~= views_of(oldlines) + seq![
                extinf_line_spec(ts[i as int]),
                track_path_spec(ts[i as int].absolute_path, playlist_dir@, opts@),
            ]);
            assert((views_of(oldlines) + seq![
                extinf_line_spec(ts[i as int]),
                track_path_spec(ts[i as int].absolute_path, playlist_dir@, opts@),
            ]) + m3u8_build_lines(ts.skip(i + 1), playlist_dir@, opts@) =~= views_of(oldlines) + (
            seq![
                extinf_line_spec(ts[i as int]),
                track_path_spec(ts[i as int].absolute_path, playlist_dir@, opts@),
            ] + m3u8_build_lines(ts.skip(i + 1), playlist_dir@, opts@)));
        }
        i = i + 1;
    }
    proof {
        assert(m3u8_build_lines(ts.skip(ts.len() as int), playlist_dir@, opts@) =~= Seq::<
            Seq<char>,
        >::empty());
        assert(views_of(lines@) + Seq::<Seq<char>>::empty() =~= views_of(lines@));
    }
    let content = join_lines(&lines);
    from_chars(&content)
}

/// The lines written for tracks in TXT form: one path line per track.
pub open spec fn txt_build_lines(
    ts: Seq<TrackModel>,
    dir: Seq<char>,
    opts: SaveOptsModel,
) -> Seq<Seq<char>>
    decreases ts.len(),
{
    if ts.len() == 0 {
        Seq::empty()
    } else {
        seq![track_path_spec(ts[0].absolute_path, dir, opts)] + txt_build_lines(
            ts.drop_first(),
            dir,
            opts,
        )
    }
}

/// The full TXT content: one resolved path per line; an empty playlist is
/// a single newline.
pub open spec fn build_txt_spec(ts: Seq<TrackModel>, dir: Seq<char>, opts: SaveOptsModel) -> Seq<
    char,
> {
    if ts.len() == 0 {
        "\n"@
    } else {
        join_nl(txt_build_lines(ts, dir, opts))
    }
}

/// Build plain-text content for the tracks.
pub fn build_txt(tracks: &Vec<Track>, playlist_dir: &str, opts: &PlaylistSaveOptions) -> (r:
    String)
    ensures
        r@ == build_txt_spec(track_views(tracks@), playlist_dir@, opts@),
{
    let ghost ts = track_views(tracks@);
    if tracks.len() == 0 {
        return String::from_str("\n");
    }
    let mut lines: Vec<Vec<char>> = Vec::new();
    proof {
        assert(ts.skip(0) =~= ts);
        assert(views_of(lines@) =~= Seq::<Seq<char>>::empty());
        assert(txt_build_lines(ts, playlist_dir@, opts@) =~= views_of(lines@) + txt_build_lines(
            ts.skip(0),
            playlist_dir@,
            opts@,
        ));
    }
    let mut i: usize = 0;
    while i < tracks.len()
        invariant
            i <= tracks@.len(),
            ts == track_views(tracks@),
            txt_build_lines(ts, playlist_dir@, opts@) == views_of(lines@) + txt_build_lines(
                ts.skip(i as int),
                playlist_dir@,
                opts@,
            ),
        decreases tracks.len() - i,
    {
        proof {
            assert(ts.skip(i as int)[0] == ts[i as int]);
            assert(ts.skip(i as int).drop_first() =~= ts.skip(i + 1));
        }
        let p = resolve_track_path(&tracks[i], playlist_dir, opts);
        let l = to_chars(p.as_str());
        let ghost oldlines = lines@;
        lines.push(l);
        proof {
            assert(views_of(lines@) =~= views_of(oldlines).push(
                track_path_spec(ts[i as int].absolute_path, playlist_dir@, opts@),
            ));
            assert(views_of(oldlines).push(
                track_path_spec(ts[i as int].absolute_path, playlist_dir@, opts@),
            ) + txt_build_lines(ts.skip(i + 1), playlist_dir@, opts@) =~= views_of(oldlines) + (
            seq![track_path_spec(ts[i as int].absolute_path, playlist_dir@, opts@)]
                + txt_build_lines(ts.skip(i + 1), playlist_dir@, opts@)));
        }
        i = i + 1;
    }
    proof {
        assert(txt_build_lines(ts.skip(ts.len() as int), playlist_dir@, opts@) =~= Seq::<
            Seq<char>,
        >::empty());
        assert(views_of(lines@) + Seq::<Seq<char>>::empty() =~= views_of(lines@));
    }
    let content = join_lines(&lines);
    from_chars(&content)
}

/// The CSV row written for one track: title, artist, duration and the
/// resolved path, the text fields each escaped.
pub open spec fn csv_row_spec(t: TrackModel, dir: Seq<char>, opts: SaveOptsModel) -> Seq<char> {
    csv_escape_spec(t.title) + seq![','] + csv_escape_spec(t.artist) + seq![','] + i64_str(
        t.duration,
    ) + seq![','] + csv_escape_spec(track_path_spec(t.absolute_path, dir, opts))
}

/// The rows written for tracks in CSV form.
pub open spec fn csv_build_lines(
    ts: Seq<TrackModel>,
    dir: Seq<char>,
    opts: SaveOptsModel,
) -> Seq<Seq<char>>
    decreases ts.len(),
{
    if ts.len() == 0 {
        Seq::empty()
    } else {
        seq![csv_row_spec(ts[0], dir, opts)] + csv_build_lines(ts.drop_first(), dir, opts)
    }
}

/// The full CSV content: the header row, then one row per track.
pub open spec fn build_csv_spec(ts: Seq<TrackModel>, dir: Seq<char>, opts: SaveOptsModel) -> Seq<
    char,
> {
    join_nl(seq!["title,artist,duration_sec,path"@] + csv_build_lines(ts, dir, opts))
}

fn csv_row(track: &Track, playlist_dir: &str, opts: &PlaylistSaveOptions) -> (r: Vec<char>)
    ensures
        r@ == csv_row_spec(track@, playlist_dir@, opts@),
{
    let mut l: Vec<char> = Vec::new();
    let t = crate::csv::csv_escape(track.title.as_str());
    let tv = to_chars(t.as_str());
    append_chars(&mut l, &tv);
    l.push(',');
    let a = crate::csv::csv_escape(track.artist.as_str());
    let av = to_chars(a.as_str());
    append_chars(&mut l, &av);
    l.push(',');
    let d = i64_to_chars(track.duration);
    append_chars(&mut l, &d);
    l.push(',');
    let p = resolve_track_path(track, playlist_dir, opts);
    let pe = crate::csv::csv_escape(p.as_str());
    let pv = to_chars(pe.as_str());
    append_chars(&mut l, &pv);
    proof {
        assert(l@ =~= csv_row_spec(track@, playlist_dir@, opts@));
    }
    l
}

/// Build CSV content for the tracks.
pub fn build_csv(tracks: &Vec<Track>, playlist_dir: &str, opts: &PlaylistSaveOptions) -> (r:
    String)
    ensures
        r@ == build_csv_spec(track_views(tracks@), playlist_dir@, opts@),
{
    let ghost ts = track_views(tracks@);
    let mut lines: Vec<Vec<char>> = Vec::new();
    let mut hdr: Vec<char> = Vec::new();
    push_lit(&mut hdr, "title,artist,duration_sec,path");
    lines.push(hdr);
    proof {
        assert(ts.skip(0) =~= ts);
        assert(views_of(lines@) =~= seq!["title,artist,duration_sec,path"@]);
        assert(seq!["title,artist,duration_sec,path"@] + csv_build_lines(ts, playlist_dir@, opts@)
            =~= views_of(lines@) + csv_build_lines(ts.skip(0), playlist_dir@, opts@));
    }
    let mut i: usize = 0;
    while i < tracks.len()
        invariant
            i <= tracks@.len(),
            ts == track_views(tracks@),
            seq!["title,artist,duration_sec,path"@] + csv_build_lines(ts, playlist_dir@, opts@)
                == views_of(lines@) + csv_build_lines(ts.skip(i as int), playlist_dir@, opts@),
        decreases tracks.len() - i,
    {
        proof {
            assert(ts.skip(i as int)[0] == ts[i as int]);
            assert(ts.skip(i as int).drop_first() =~= ts.skip(i + 1));
        }
        let row = csv_row(&tracks[i], playlist_dir, opts);
        let ghost oldlines = lines@;
        lines.push(row);
        proof {
            assert(views_of(lines@) =~= views_of(oldlines).push(
                csv_row_spec(ts[i as int], playlist_dir@, opts@),
            ));
            assert(views_of(oldlines).push(csv_row_spec(ts[i as int], playlist_dir@, opts@))
                + csv_build_lines(ts.skip(i + 1), playlist_dir@, opts@) =~= views_of(oldlines) + (
            seq![csv_row_spec(ts[i as int], playlist_dir@, opts@)] + csv_build_lines(
                ts.skip(i + 1),
                playlist_dir@,
                opts@,
            )));
        }
        i = i + 1;
    }
    proof {
        assert(csv_build_lines(ts.skip(ts.len() as int), playlist_dir@, opts@) =~= Seq::<
            Seq<char>,
        >::empty());
        assert(views_of(lines@) + Seq::<Seq<char>>::empty() =~= views_of(lines@));
    }
    let content = join_lines(&lines);
    from_chars(&content)
}

} // verus!
