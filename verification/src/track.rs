//! The data model: tracks, tag metadata, save options, and the snapshot
//! of filesystem answers that track resolution consults.
use vstd::prelude::*;
use crate::paths::strip_prefix_spec;
use crate::text::{str_eq_chars, to_chars};

verus! {

/// The canonical in-memory record of a playlist entry.
#[derive(Clone, Debug)]
pub struct Track {
    pub title: String,
    pub artist: String,
    /// Seconds; 0 when unknown.
    pub duration: i64,
    /// The literal on-disk playlist text, `/`-separated.
    pub relative_path: String,
    /// Best-effort absolute location; populated even when the referenced
    /// file does not exist.
    pub absolute_path: String,
}

/// The mathematical value of a `Track`.
pub ghost struct TrackModel {
    pub title: Seq<char>,
    pub artist: Seq<char>,
    pub duration: int,
    pub relative_path: Seq<char>,
    pub absolute_path: Seq<char>,
}

impl View for Track {
    type V = TrackModel;

    open spec fn view(&self) -> TrackModel {
        TrackModel {
            title: self.title@,
            artist: self.artist@,
            duration: self.duration as int,
            relative_path: self.relative_path@,
            absolute_path: self.absolute_path@,
        }
    }
}

/// The models of a sequence of tracks.
pub open spec fn track_views(s: Seq<Track>) -> Seq<TrackModel> {
    s.map_values(|t: Track| t@)
}

/// What the tag codec reports for one audio file.
#[derive(Clone, Debug)]
pub struct AudioMetadata {
    pub title: String,
    pub artist: String,
    /// Seconds; 0 when unknown.
    pub duration: i64,
}

/// The full editable tag set of one audio file, as the tag codec reads
/// and writes it.
#[derive(Clone, Debug)]
pub struct AudioTags {
    pub title: String,
    pub artist: String,
    pub album_artist: String,
    pub album: String,
    pub genre: String,
    pub year: i64,
    pub track_number: i64,
    pub total_tracks: i64,
    pub disc_number: i64,
    pub total_discs: i64,
    pub composer: String,
    pub comment: String,
    pub lyrics: String,
    pub bpm: i64,
    pub copyright: String,
    pub publisher: String,
    pub isrc: String,
    /// Cover art as a `data:` URI, empty when absent.
    pub cover_art: String,
}

/// How a playlist is written out: the path policy, the music root that
/// `relative-from-root` measures from, and the text format.
#[derive(Clone, Debug)]
pub struct PlaylistSaveOptions {
    /// "relative" | "absolute" | "relative-from-root"
    pub path_mode: String,
    /// Music root directory (used for relative-from-root mode)
    pub music_root: Option<String>,
    /// "m3u8" | "m3u" | "txt" | "csv"
    pub format: String,
}

/// The mathematical value of a `PlaylistSaveOptions`.
pub ghost struct SaveOptsModel {
    pub path_mode: Seq<char>,
    pub music_root: Option<Seq<char>>,
    pub format: Seq<char>,
}

impl View for PlaylistSaveOptions {
    type V = SaveOptsModel;

    open spec fn view(&self) -> SaveOptsModel {
        SaveOptsModel {
            path_mode: self.path_mode@,
            music_root: match self.music_root {
                Some(r) => Some(r@),
                None => None,
            },
            format: self.format@,
        }
    }
}

impl Default for PlaylistSaveOptions {
    /// The defaults when a save gives no options: relative paths, M3U8.
    fn default() -> (r: Self)
        ensures
            r.path_mode@ == "relative"@,
            r.music_root is None,
            r.format@ == "m3u8"@,
    {
        PlaylistSaveOptions {
            path_mode: String::from_str("relative"),
            music_root: None,
            format: String::from_str("m3u8"),
        }
    }
}

/// One resolvable playlist reference: the path a parser would ask about,
/// the canonical path the filesystem reports for it, and the file's tag
/// metadata.
#[derive(Clone, Debug)]
pub struct FsEntry {
    pub path: String,
    pub canonical: String,
    pub meta: AudioMetadata,
}

/// The mathematical value of an `FsEntry`.
pub ghost struct FsEntryModel {
    pub path: Seq<char>,
    pub canonical: Seq<char>,
    pub title: Seq<char>,
    pub artist: Seq<char>,
    pub duration: int,
}

impl View for FsEntry {
    type V = FsEntryModel;

    open spec fn view(&self) -> FsEntryModel {
        FsEntryModel {
            path: self.path@,
            canonical: self.canonical@,
            title: self.meta.title@,
            artist: self.meta.artist@,
            duration: self.meta.duration as int,
        }
    }
}

/// A snapshot of what canonicalization and the tag codec answer: the
/// queried paths that exist, each with its canonical path and metadata.
/// A path absent from the snapshot does not exist. Parsers consult the
/// snapshot instead of the live filesystem, so their results are a
/// function of their arguments alone.
#[derive(Clone, Debug)]
pub struct FsView {
    pub entries: Vec<FsEntry>,
}

impl View for FsView {
    type V = Seq<FsEntryModel>;

    open spec fn view(&self) -> Seq<FsEntryModel> {
        self.entries@.map_values(|e: FsEntry| e@)
    }
}

/// The first entry recorded for `p`, if any.
pub open spec fn fs_lookup(entries: Seq<FsEntryModel>, p: Seq<char>) -> Option<FsEntryModel>
    decreases entries.len(),
{
    if entries.len() == 0 {
        None
    } else if entries[0].path == p {
        Some(entries[0])
    } else {
        fs_lookup(entries.drop_first(), p)
    }
}

impl FsView {
    /// An empty snapshot: no referenced file exists.
    pub fn new() -> (r: FsView)
        ensures
            r@ =~= Seq::<FsEntryModel>::empty(),
    {
        FsView { entries: Vec::new() }
    }

    /// Record that `path` resolves to `canonical` with metadata `meta`.
    pub fn push(&mut self, e: FsEntry)
        ensures
            final(self)@ =~= old(self)@.push(e@),
    {
        self.entries.push(e);
        proof {
            assert(self@ =~= old(self)@.push(e@));
        }
    }

    pub fn lookup(&self, p: &Vec<char>) -> (r: Option<&FsEntry>)
        ensures
            match r {
                Some(e) => fs_lookup(self@, p@) == Some(e@),
                None => fs_lookup(self@, p@) is None,
            },
    {
        let mut i: usize = 0;
        proof {
            assert(self@.skip(0) =~= self@);
        }
        while i < self.entries.len()
            invariant
                i <= self.entries@.len(),
                fs_lookup(self@, p@) == fs_lookup(self@.skip(i as int), p@),
            decreases self.entries@.len() - i,
        {
            proof {
                assert(self@.skip(i as int)[0] == self@[i as int]);
                assert(self@.skip(i as int).drop_first() =~= self@.skip(i + 1));
            }
            if str_eq_chars(self.entries[i].path.as_str(), p) {
                return Some(&self.entries[i]);
            }
            i = i + 1;
        }
        proof {
            assert(self@.skip(self.entries@.len() as int).len() == 0);
        }
        None
    }
}

/// A track for a scanned audio file: metadata from the tag codec, the
/// absolute path as given, and the relative path measured from the music
/// root when the file lies under it.
pub fn build_track(file_path: &str, root: &str, meta: &AudioMetadata) -> (r: Track)
    ensures
        r@.title == meta.title@,
        r@.artist == meta.artist@,
        r@.duration == meta.duration as int,
        r@.absolute_path == file_path@,
        r@.relative_path == match strip_prefix_spec(root@, file_path@) {
            Some(s) => s,
            None => file_path@,
        },
{
    let fv = to_chars(file_path);
    let rv = to_chars(root);
    let relative_path = match crate::paths::strip_prefix(&rv, &fv) {
        Some(s) => crate::text::from_chars(&s),
        None => String::from_str(file_path),
    };
    Track {
        title: meta.title.clone(),
        artist: meta.artist.clone(),
        duration: meta.duration,
        relative_path,
        absolute_path: String::from_str(file_path),
    }
}

} // verus!
