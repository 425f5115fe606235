//! Loading and saving brought together: the format picked by file
//! extension on load and by the save options on save, with the defaults
//! the options leave open.
use vstd::prelude::*;
use crate::emit::{build_csv, build_csv_spec, build_m3u8, build_m3u8_spec, build_txt, build_txt_spec};
use crate::parse::{
    csv_lines_spec, m3u8_lines_spec, parse_csv, parse_csv_spec, parse_m3u8, parse_m3u8_spec,
    parse_txt, parse_txt_spec, txt_lines_spec, extinf_reset,
};
use crate::paths::{extension_spec, join_path, join_spec, path_extension};
use crate::text::{chars_ieq_lit, seq_ieq, split_spec, string_eq_lit, to_chars, trim_spec};
use crate::track::{track_views, FsEntryModel, FsView, PlaylistSaveOptions, SaveOptsModel, Track, TrackModel};

verus! {

/// The tracks a playlist file stands for, its format picked by the file
/// extension: `txt` and `csv` read as those formats, anything else as
/// M3U.
pub open spec fn parse_playlist_spec(
    path: Seq<char>,
    content: Seq<char>,
    dir: Seq<char>,
    fs: Seq<FsEntryModel>,
) -> Seq<TrackModel> {
    match extension_spec(path) {
        Some(e) => if seq_ieq(e, "txt"@) {
            parse_txt_spec(content, dir, fs)
        } else if seq_ieq(e, "csv"@) {
            parse_csv_spec(content, dir, fs)
        } else {
            parse_m3u8_spec(content, dir, fs)
        },
        None => parse_m3u8_spec(content, dir, fs),
    }
}

/// An empty file parses to no tracks in every format.
pub proof fn lemma_parse_empty(content: Seq<char>, dir: Seq<char>, fs: Seq<FsEntryModel>)
    requires
        content.len() == 0,
    ensures
        parse_m3u8_spec(content, dir, fs) == Seq::<TrackModel>::empty(),
        parse_txt_spec(content, dir, fs) == Seq::<TrackModel>::empty(),
        parse_csv_spec(content, dir, fs) == Seq::<TrackModel>::empty(),
{
    let lines = split_spec(content, '\n');
    assert(lines =~= seq![Seq::<char>::empty()]);
    assert(trim_spec(lines[0]).len() == 0);
    assert(lines.drop_first() =~= Seq::<Seq<char>>::empty());
    assert(m3u8_lines_spec(lines.drop_first(), dir, fs, extinf_reset()) =~= Seq::<
        TrackModel,
    >::empty());
    assert(txt_lines_spec(lines.drop_first(), dir, fs) =~= Seq::<TrackModel>::empty());
    assert(csv_lines_spec(lines.drop_first(), dir, fs, true) =~= Seq::<TrackModel>::empty());
}

/// Parse playlist content, the decoder picked by the path's extension.
/// Empty content yields no tracks, whatever the extension.
pub fn parse_playlist(path: &str, content: &str, playlist_dir: &str, fs: &FsView) -> (r: Vec<
    Track,
>)
    ensures
        track_views(r@) == parse_playlist_spec(path@, content@, playlist_dir@, fs@),
        content@.len() == 0 ==> r@.len() == 0,
{
    proof {
        if content@.len() == 0 {
            lemma_parse_empty(content@, playlist_dir@, fs@);
        }
    }
    let pv = to_chars(path);
    let r = match path_extension(&pv) {
        Some(e) => {
            if chars_ieq_lit(&e, "txt") {
                parse_txt(content, playlist_dir, fs)
            } else if chars_ieq_lit(&e, "csv") {
                parse_csv(content, playlist_dir, fs)
            } else {
                parse_m3u8(content, playlist_dir, fs)
            }
        },
        None => parse_m3u8(content, playlist_dir, fs),
    };
    proof {
        assert(track_views(r@).len() == r@.len());
    }
    r
}

/// The content written for the tracks, the format picked by the save
/// options: `txt` and `csv` by name, anything else as M3U8.
pub open spec fn build_playlist_spec(
    ts: Seq<TrackModel>,
    dir: Seq<char>,
    opts: SaveOptsModel,
) -> Seq<char> {
    if opts.format == "txt"@ {
        build_txt_spec(ts, dir, opts)
    } else if opts.format == "csv"@ {
        build_csv_spec(ts, dir, opts)
    } else {
        build_m3u8_spec(ts, dir, opts)
    }
}

/// Build playlist content for the tracks, the encoder picked by the
/// options' format.
pub fn build_playlist(tracks: &Vec<Track>, playlist_dir: &str, opts: &PlaylistSaveOptions) -> (r:
    String)
    ensures
        r@ == build_playlist_spec(track_views(tracks@), playlist_dir@, opts@),
{
    if string_eq_lit(opts.format.as_str(), "txt") {
        build_txt(tracks, playlist_dir, opts)
    } else if string_eq_lit(opts.format.as_str(), "csv") {
        build_csv(tracks, playlist_dir, opts)
    } else {
        build_m3u8(tracks, playlist_dir, opts)
    }
}

/// A track whose text survives the M3U8 line discipline: its absolute
/// path is a clean `/`-separated absolute reference that a path line
/// carries verbatim, and its display fields hold no newline.
pub open spec fn roundtrip_ready(t: TrackModel) -> bool {
    &&& t.absolute_path.len() > 0
    &&& t.absolute_path[0] == '/'
    &&& !crate::text::is_space_char(t.absolute_path.last())
    &&& forall|k: int|
        0 <= k < t.absolute_path.len() ==> #[trigger] t.absolute_path[k] != '\n'
            && t.absolute_path[k] != '\\'
    &&& forall|k: int| 0 <= k < t.title.len() ==> #[trigger] t.title[k] != '\n'
    &&& forall|k: int| 0 <= k < t.artist.len() ==> #[trigger] t.artist[k] != '\n'
}

/// The snapshot knows the track's file under its own absolute path and
/// answers with the track's own display fields: the backing file exists
/// and the metadata lookup is stable.
pub open spec fn lookup_matches(fs: Seq<FsEntryModel>, t: TrackModel) -> bool {
    match crate::track::fs_lookup(fs, t.absolute_path) {
        Some(e) => e.canonical == t.absolute_path && e.title == t.title && e.artist == t.artist,
        None => false,
    }
}

/// An `#EXTINF:` line never holds a newline, and its trimmed form still
/// announces itself as an `#EXTINF:` line.
proof fn lemma_extinf_line_facts(t: TrackModel)
    requires
        forall|k: int| 0 <= k < t.title.len() ==> #[trigger] t.title[k] != '\n',
        forall|k: int| 0 <= k < t.artist.len() ==> #[trigger] t.artist[k] != '\n',
    ensures
        forall|k: int|
            0 <= k < crate::emit::extinf_line_spec(t).len()
                ==> #[trigger] crate::emit::extinf_line_spec(t)[k] != '\n',
        crate::text::trim_spec(crate::emit::extinf_line_spec(t)).len() > 0,
        crate::text::has_prefix(
            crate::text::trim_spec(crate::emit::extinf_line_spec(t)),
            "#EXTINF:"@,
        ),
{
    reveal_strlit("#EXTINF:");
    reveal_strlit(" - ");
    let line = crate::emit::extinf_line_spec(t);
    let h = "#EXTINF:"@;
    let ds = crate::num::i64_str(t.duration);
    let tail = if t.artist.len() > 0 {
        t.artist + " - "@ + t.title
    } else {
        t.title
    };
    assert(line == h + ds + seq![','] + tail);
    crate::num::lemma_i64_str_chars(t.duration);
    assert forall|k: int| 0 <= k < line.len() implies #[trigger] line[k] != '\n' by {
        if k < 8 {
            assert(line[k] == h[k]);
        } else if k < 8 + ds.len() {
            assert(line[k] == ds[k - 8]);
            assert(ds[k - 8] == '-' || crate::num::is_digit(ds[k - 8]));
        } else if k == 8 + ds.len() {
            assert(line[k] == ',');
        } else {
            let m = k - 9 - ds.len();
            assert(line[k] == tail[m]);
            if t.artist.len() > 0 {
                if m < t.artist.len() {
                    assert(tail[m] == t.artist[m]);
                } else if m < t.artist.len() + 3 {
                    assert(tail[m] == " - "@[m - t.artist.len()]);
                } else {
                    assert(tail[m] == t.title[m - t.artist.len() - 3]);
                }
            }
        }
    }
    assert(line[0] == h[0] && line[0] == '#');
    assert(line[7] == h[7] && line[7] == ':');
    assert(!crate::text::is_space_char('#'));
    assert(!crate::text::is_space_char(':'));
    crate::text::lemma_trim_start_noop(line);
    crate::text::lemma_trim_end_keeps(line, 7);
    crate::text::lemma_trim_end_prefix(line);
    let tr = crate::text::trim_spec(line);
    assert(tr == crate::text::trim_end_spec(line));
    assert(tr.len() >= 8);
    assert forall|i: int| 0 <= i < 8 implies tr[i] == h[i] by {
        assert(tr[i] == line.take(tr.len() as int)[i]);
    }
}

/// No built M3U8 body line holds a newline.
proof fn lemma_build_lines_no_nl(ts: Seq<TrackModel>, dir: Seq<char>, opts: SaveOptsModel)
    requires
        opts.path_mode == "absolute"@,
        forall|i: int| 0 <= i < ts.len() ==> roundtrip_ready(#[trigger] ts[i]),
    ensures
        forall|i: int, j: int|
            0 <= i < crate::emit::m3u8_build_lines(ts, dir, opts).len() && 0 <= j
                < crate::emit::m3u8_build_lines(ts, dir, opts)[i].len()
                ==> crate::emit::m3u8_build_lines(ts, dir, opts)[i][j] != '\n',
    decreases ts.len(),
{
    if ts.len() > 0 {
        let t0 = ts[0];
        let bl = crate::emit::m3u8_build_lines(ts, dir, opts);
        let rest = crate::emit::m3u8_build_lines(ts.drop_first(), dir, opts);
        let e0 = crate::emit::extinf_line_spec(t0);
        let p0 = crate::emit::track_path_spec(t0.absolute_path, dir, opts);
        assert(bl == seq![e0, p0] + rest);
        lemma_extinf_line_facts(t0);
        assert(p0 == crate::paths::norm_spec(t0.absolute_path));
        crate::paths::lemma_norm_id(t0.absolute_path);
        assert(forall|i: int| 0 <= i < ts.len() - 1 ==> ts.drop_first()[i] == ts[i + 1]);
        lemma_build_lines_no_nl(ts.drop_first(), dir, opts);
        assert forall|i: int, j: int|
            0 <= i < bl.len() && 0 <= j < bl[i].len() implies bl[i][j] != '\n' by {
            if i == 0 {
                assert(bl[i] == e0);
            } else if i == 1 {
                assert(bl[i] == p0);
                assert(p0[j] == t0.absolute_path[j]);
            } else {
                assert(bl[i] == rest[i - 2]);
            }
        }
    }
}

/// Walking the built body lines with any pending state emits exactly the
/// tracks, each with its own absolute path, title and artist.
proof fn lemma_m3u8_lines_rt(
    ts: Seq<TrackModel>,
    dir: Seq<char>,
    fs: Seq<FsEntryModel>,
    opts: SaveOptsModel,
    st: crate::parse::ExtinfState,
)
    requires
        opts.path_mode == "absolute"@,
        forall|i: int| 0 <= i < ts.len() ==> roundtrip_ready(#[trigger] ts[i]),
        forall|i: int| 0 <= i < ts.len() ==> lookup_matches(fs, #[trigger] ts[i]),
    ensures
        ({
            let r = m3u8_lines_spec(
                crate::emit::m3u8_build_lines(ts, dir, opts) + seq![Seq::<char>::empty()],
                dir,
                fs,
                st,
            );
            &&& r.len() == ts.len()
            &&& forall|i: int|
                0 <= i < ts.len() ==> (#[trigger] r[i]).absolute_path == ts[i].absolute_path
                    && r[i].title == ts[i].title && r[i].artist == ts[i].artist
        }),
    decreases ts.len(),
{
    let bl = crate::emit::m3u8_build_lines(ts, dir, opts);
    let lines = bl + seq![Seq::<char>::empty()];
    if ts.len() == 0 {
        assert(bl.len() == 0);
        assert(lines =~= seq![Seq::<char>::empty()]);
        assert(crate::text::trim_spec(lines[0]).len() == 0);
        assert(lines.drop_first() =~= Seq::<Seq<char>>::empty());
        assert(m3u8_lines_spec(lines.drop_first(), dir, fs, st) == Seq::<TrackModel>::empty());
    } else {
        let t0 = ts[0];
        let e0 = crate::emit::extinf_line_spec(t0);
        let p0 = crate::emit::track_path_spec(t0.absolute_path, dir, opts);
        let rest = crate::emit::m3u8_build_lines(ts.drop_first(), dir, opts);
        assert(bl == seq![e0, p0] + rest);
        assert(lines[0] == e0);
        lemma_extinf_line_facts(t0);
        let tr0 = crate::text::trim_spec(e0);
        let st1 = crate::parse::extinf_spec(tr0);
        let rest1 = lines.drop_first();
        assert(m3u8_lines_spec(lines, dir, fs, st) == m3u8_lines_spec(rest1, dir, fs, st1));
        // the path line carries the absolute path verbatim
        assert(p0 == crate::paths::norm_spec(t0.absolute_path));
        crate::paths::lemma_norm_id(t0.absolute_path);
        assert(p0 == t0.absolute_path);
        assert(rest1[0] == p0);
        assert(rest1.drop_first() =~= rest + seq![Seq::<char>::empty()]);
        assert(!crate::text::is_space_char('/'));
        crate::text::lemma_trim_start_noop(p0);
        assert(crate::text::trim_end_spec(p0) == p0);
        assert(crate::text::trim_spec(p0) == p0);
        reveal_strlit("#EXTINF:");
        assert(!crate::text::has_prefix(p0, "#EXTINF:"@)) by {
            if crate::text::has_prefix(p0, "#EXTINF:"@) {
                assert(p0[0] == "#EXTINF:"@[0]);
            }
        }
        assert(p0[0] != '#');
        let emitted = crate::parse::m3u8_track_spec(p0, dir, fs, st1);
        assert(m3u8_lines_spec(rest1, dir, fs, st1) == seq![emitted] + m3u8_lines_spec(
            rest1.drop_first(),
            dir,
            fs,
            extinf_reset(),
        ));
        // the emitted track takes the snapshot's answer
        assert(crate::paths::join_spec(dir, p0) == p0);
        assert(lookup_matches(fs, t0));
        assert(emitted.absolute_path == t0.absolute_path && emitted.title == t0.title
            && emitted.artist == t0.artist);
        // the rest by induction
        assert(forall|i: int| 0 <= i < ts.len() - 1 ==> ts.drop_first()[i] == ts[i + 1]);
        lemma_m3u8_lines_rt(ts.drop_first(), dir, fs, opts, extinf_reset());
        let rr = m3u8_lines_spec(rest + seq![Seq::<char>::empty()], dir, fs, extinf_reset());
        let r = m3u8_lines_spec(lines, dir, fs, st);
        assert(r == seq![emitted] + rr);
        assert forall|i: int|
            0 <= i < ts.len() implies (#[trigger] r[i]).absolute_path == ts[i].absolute_path
                && r[i].title == ts[i].title && r[i].artist == ts[i].artist by {
            if i == 0 {
                assert(r[0] == emitted);
            } else {
                assert(r[i] == rr[i - 1]);
                assert(ts.drop_first()[i - 1] == ts[i]);
            }
        }
    }
}

/// Round-trip: build an M3U8 playlist under the `absolute` path mode and
/// parse it back, and every track's absolute path, title and artist come
/// back unchanged, in order — provided each track's backing file exists,
/// the metadata lookup answers stably with the track's own display
/// fields, and the text survives the line discipline
/// (`roundtrip_ready`). Durations are refreshed from the lookup rather
/// than kept.
pub proof fn lemma_m3u8_roundtrip(
    ts: Seq<TrackModel>,
    dir: Seq<char>,
    fs: Seq<FsEntryModel>,
    opts: SaveOptsModel,
)
    requires
        opts.path_mode == "absolute"@,
        forall|i: int| 0 <= i < ts.len() ==> roundtrip_ready(#[trigger] ts[i]),
        forall|i: int| 0 <= i < ts.len() ==> lookup_matches(fs, #[trigger] ts[i]),
    ensures
        ({
            let r = parse_m3u8_spec(crate::emit::build_m3u8_spec(ts, dir, opts), dir, fs);
            &&& r.len() == ts.len()
            &&& forall|i: int|
                0 <= i < ts.len() ==> (#[trigger] r[i]).absolute_path == ts[i].absolute_path
                    && r[i].title == ts[i].title && r[i].artist == ts[i].artist
        }),
{
    let bl = crate::emit::m3u8_build_lines(ts, dir, opts);
    let all = seq!["#EXTM3U"@] + bl;
    let content = crate::emit::build_m3u8_spec(ts, dir, opts);
    assert(content == crate::text::join_nl(all));
    reveal_strlit("#EXTM3U");
    lemma_build_lines_no_nl(ts, dir, opts);
    assert forall|i: int, j: int|
        0 <= i < all.len() && 0 <= j < all[i].len() implies all[i][j] != '\n' by {
        if i == 0 {
            assert(all[0] == "#EXTM3U"@);
        } else {
            assert(all[i] == bl[i - 1]);
        }
    }
    crate::text::lemma_split_join(all);
    let lines = all + seq![Seq::<char>::empty()];
    assert(split_spec(content, '\n') == lines);
    // the header is a comment line: trimmed to itself, skipped
    let hdr = "#EXTM3U"@;
    assert(lines[0] == hdr);
    assert(hdr.len() == 7);
    assert(hdr[0] == '#' && hdr[6] == 'U');
    assert(!crate::text::is_space_char('#'));
    assert(!crate::text::is_space_char('U'));
    crate::text::lemma_trim_start_noop(hdr);
    assert(crate::text::trim_end_spec(hdr) == hdr);
    assert(crate::text::trim_spec(hdr) == hdr);
    reveal_strlit("#EXTINF:");
    assert(!crate::text::has_prefix(hdr, "#EXTINF:"@));
    assert(lines.drop_first() =~= bl + seq![Seq::<char>::empty()]);
    assert(m3u8_lines_spec(lines, dir, fs, extinf_reset()) == m3u8_lines_spec(
        bl + seq![Seq::<char>::empty()],
        dir,
        fs,
        extinf_reset(),
    ));
    lemma_m3u8_lines_rt(ts, dir, fs, opts, extinf_reset());
}

/// Path resolution round-trip: writing a track's location under the
/// `relative` path mode and resolving that reference back against the
/// same playlist directory recovers the original absolute path — the
/// same components, once the `..` steps are walked, which is what
/// canonicalization does on disk. Holds for clean `/`-separated absolute
/// paths without `..` components; both being absolute, they share the
/// root as common ancestor.
pub proof fn lemma_path_resolution_roundtrip(dir: Seq<char>, abs: Seq<char>, opts: SaveOptsModel)
    requires
        opts.path_mode == "relative"@,
        crate::paths::is_abs_spec(dir),
        crate::paths::is_abs_spec(abs),
        forall|k: int| 0 <= k < dir.len() ==> dir[k] != '\\',
        forall|k: int| 0 <= k < abs.len() ==> abs[k] != '\\',
        forall|i: int|
            0 <= i < crate::paths::components_spec(dir).len()
                ==> #[trigger] crate::paths::components_spec(dir)[i] != seq!['.', '.'],
        forall|i: int|
            0 <= i < crate::paths::components_spec(abs).len()
                ==> #[trigger] crate::paths::components_spec(abs)[i] != seq!['.', '.'],
    ensures
        crate::paths::resolve_dots_spec(
            crate::paths::components_spec(
                crate::parse::joined_path_spec(
                    crate::emit::track_path_spec(abs, dir, opts),
                    dir,
                ),
            ),
        ) == crate::paths::components_spec(abs),
{
    reveal_strlit("relative");
    reveal_strlit("absolute");
    reveal_strlit("relative-from-root");
    assert(opts.path_mode != "absolute"@) by {
        assert("relative"@[0] == 'r' && "absolute"@[0] == 'a');
    }
    assert(opts.path_mode != "relative-from-root"@) by {
        assert("relative"@.len() != "relative-from-root"@.len());
    }
    let rel = crate::paths::norm_spec(crate::paths::rel_path_spec(dir, abs));
    assert(crate::emit::track_path_spec(abs, dir, opts) == rel);
    assert(forall|k: int| 0 <= k < rel.len() ==> rel[k] != '\\');
    crate::paths::lemma_norm_id(rel);
    crate::paths::lemma_relative_roundtrip(dir, abs);
}

/// The default playlist directory under a music root: its `Playlists`
/// subdirectory.
pub fn default_playlist_dir(root: &str) -> (r: String)
    ensures
        r@ == join_spec(root@, "Playlists"@),
{
    let rv = to_chars(root);
    let sub = to_chars("Playlists");
    let joined = join_path(&rv, &sub);
    crate::text::from_chars(&joined)
}

} // verus!
