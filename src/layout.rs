use vstd::prelude::*;
use crate::catalog::BaseFileMetadata;
use crate::clean::views;
use crate::model::{FileScanCache, FileScanCacheView, opt_view};

verus! {

/// The record after the directory layout `root/<Author>/[<Series>/]<Title>/` names
/// its author, series and title; the layout takes precedence over tag values.
/// `dirs` are the directory names below the root, and `has_subdirs` tells
/// whether the file's directory holds further directories. With three or more
/// names, the first three are (author, series, title). With two, they are
/// (author, title), unless the directory holds subdirectories: it is then a
/// series container, not a title.
pub open spec fn layout_step(m: FileScanCacheView, dirs: Seq<Seq<char>>, has_subdirs: bool) -> FileScanCacheView {
    if dirs.len() >= 3 {
        FileScanCacheView { author: Some(dirs[0]), series: Some(dirs[1]), title: Some(dirs[2]), ..m }
    } else if dirs.len() == 2 && !has_subdirs {
        FileScanCacheView { author: Some(dirs[0]), title: Some(dirs[1]), ..m }
    } else {
        m
    }
}

/// Sets author, series and title from the directory layout.
pub fn fill_from_layout(metadata: &mut FileScanCache, dirs: &Vec<String>, has_subdirs: bool)
    ensures
        final(metadata)@ == layout_step(old(metadata)@, views(dirs@), has_subdirs),
{
    let n = dirs.len();
    if n < 2 || (n == 2 && has_subdirs) {
        return;
    }
    metadata.author = Some(dirs[0].clone());
    if n >= 3 {
        metadata.series = Some(dirs[1].clone());
        metadata.title = Some(dirs[2].clone());
    } else {
        metadata.title = Some(dirs[1].clone());
    }
}

/// Whether the walk collects the files of a directory `depth` names below the
/// root: not those of a series container (two names, with subdirectories).
pub fn layout_collects(depth: usize, has_subdirs: bool) -> (r: bool)
    ensures
        r == !(depth == 2 && has_subdirs),
{
    !(depth == 2 && has_subdirs)
}

/// Whether a file name has an audio extension (`mp3`, `m4b`, `flac`, `m4a`, in
/// any ASCII case).
pub open spec fn audio_name(name: Seq<char>) -> bool {
    let e = name.subrange(last_dot(name) + 1, name.len() as int);
    last_dot(name) >= 0 && (ext_is(e, seq!['m', 'p', '3']) || ext_is(e, seq!['m', '4', 'b'])
        || ext_is(e, seq!['f', 'l', 'a', 'c']) || ext_is(e, seq!['m', '4', 'a']))
}

/// Index of the last `.` of `name`, or -1.
pub open spec fn last_dot(name: Seq<char>) -> int
    decreases name.len(),
{
    if name.len() == 0 {
        -1
    } else if name.last() == '.' {
        name.len() - 1
    } else {
        last_dot(name.drop_last())
    }
}

/// `e` is the lower-case extension `w` in some ASCII case.
pub open spec fn ext_is(e: Seq<char>, w: Seq<char>) -> bool {
    e.len() == w.len() && forall|k: int| 0 <= k < w.len() ==> crate::order::same_letter(#[trigger] e[k], w[k])
}

fn ext_is_exec(name: &Vec<char>, from: usize, w: &Vec<char>) -> (r: bool)
    requires
        from <= name.len(),
    ensures
        r == ext_is(name@.subrange(from as int, name.len() as int), w@),
{
    let ghost e = name@.subrange(from as int, name.len() as int);
    if name.len() - from != w.len() {
        return false;
    }
    let mut k: usize = 0;
    while k < w.len()
        invariant
            k <= w.len(),
            name.len() - from == w.len(),
            e == name@.subrange(from as int, name.len() as int),
            forall|q: int| 0 <= q < k ==> crate::order::same_letter(#[trigger] e[q], w@[q]),
        decreases w.len() - k,
    {
        let c = name[from + k];
        let t = w[k];
        assert(e[k as int] == c);
        if !crate::order::same_letter_char(c, t) {
            return false;
        }
        k = k + 1;
    }
    true
}

/// Whether a file name has an audio extension.
pub fn is_audio_name(name: &str) -> (r: bool)
    ensures
        r == audio_name(name@),
{
    let cs = crate::text::to_chars(name);
    let mut i: usize = cs.len();
    assert(cs@.subrange(0, cs@.len() as int) =~= cs@);
    while i > 0 && cs[i - 1] != '.'
        invariant
            i <= cs.len(),
            last_dot(cs@) == last_dot(cs@.subrange(0, i as int)),
        decreases i,
    {
        assert(cs@.subrange(0, i - 1) =~= cs@.subrange(0, i as int).drop_last());
        i = i - 1;
    }
    if i == 0 {
        proof {
            assert(cs@.subrange(0, 0) =~= Seq::<char>::empty());
        }
        return false;
    }
    proof {
        assert(cs@.subrange(0, i as int).last() == '.');
    }
    let mp3 = vec!['m', 'p', '3'];
    let m4b = vec!['m', '4', 'b'];
    let flac = vec!['f', 'l', 'a', 'c'];
    let m4a = vec!['m', '4', 'a'];
    assert(mp3@ =~= seq!['m', 'p', '3']);
    assert(m4b@ =~= seq!['m', '4', 'b']);
    assert(flac@ =~= seq!['f', 'l', 'a', 'c']);
    assert(m4a@ =~= seq!['m', '4', 'a']);
    ext_is_exec(&cs, i, &mp3) || ext_is_exec(&cs, i, &m4b) || ext_is_exec(&cs, i, &flac)
        || ext_is_exec(&cs, i, &m4a)
}

/// Container types that a probe reports.
#[derive(Debug, Clone, Copy, PartialEq, Eq, Structural)]
pub enum FileKind {
    Mpeg,
    Mp4,
    Flac,
    Wav,
    Mpc,
    Aiff,
    Ape,
    Aac,
    Opus,
    Vorbis,
    Speex,
    WavPack,
    Other,
}

pub open spec fn mime_of(kind: FileKind) -> Option<Seq<char>> {
    match kind {
        FileKind::Mpeg => Some("audio/mpeg"@),
        FileKind::Mp4 => Some("audio/mp4"@),
        FileKind::Flac => Some("audio/flac"@),
        FileKind::Wav => Some("audio/wav"@),
        FileKind::Mpc => Some("audio/x-musepack"@),
        FileKind::Aiff => Some("audio/aiff"@),
        FileKind::Ape => Some("audio/ape"@),
        FileKind::Aac => Some("audio/aac"@),
        FileKind::Opus => Some("audio/opus"@),
        FileKind::Vorbis => Some("audio/vorbis"@),
        FileKind::Speex => Some("audio/speex"@),
        FileKind::WavPack => Some("audio/wavpack"@),
        FileKind::Other => None,
    }
}

/// The mime type of a detected container type.
pub fn get_mime_type(file_type: &Option<FileKind>) -> (r: Option<String>)
    ensures
        opt_view(r) == match file_type {
            Some(k) => mime_of(*k),
            None => None,
        },
{
    match file_type {
        Some(k) => {
            let s = match k {
                FileKind::Mpeg => "audio/mpeg",
                FileKind::Mp4 => "audio/mp4",
                FileKind::Flac => "audio/flac",
                FileKind::Wav => "audio/wav",
                FileKind::Mpc => "audio/x-musepack",
                FileKind::Aiff => "audio/aiff",
                FileKind::Ape => "audio/ape",
                FileKind::Aac => "audio/aac",
                FileKind::Opus => "audio/opus",
                FileKind::Vorbis => "audio/vorbis",
                FileKind::Speex => "audio/speex",
                FileKind::WavPack => "audio/wavpack",
                FileKind::Other => {
                    return None;
                },
            };
            Some(String::from_str(s))
        },
        None => None,
    }
}

/// Tag formats, in the order a tag is preferred.
#[derive(Debug, Clone, Copy, PartialEq, Eq, Structural)]
pub enum TagKind {
    Id3v2,
    VorbisComments,
    Mp4Ilst,
    Ape,
    Id3v1,
    Other,
}

/// What the choice of a tag looks at.
#[derive(Debug, Clone, Copy, PartialEq, Eq, Structural)]
pub struct TagSummary {
    pub kind: TagKind,
    pub has_title: bool,
    pub has_artist: bool,
}

pub open spec fn priority() -> Seq<TagKind> {
    seq![TagKind::Id3v2, TagKind::VorbisComments, TagKind::Mp4Ilst, TagKind::Ape, TagKind::Id3v1]
}

/// Index of the first tag of kind `k` in `tags`, if any.
pub open spec fn first_of_kind(tags: Seq<TagSummary>, k: TagKind, i: int) -> Option<int>
    decreases tags.len() - i,
{
    if 0 <= i < tags.len() {
        if tags[i].kind == k {
            Some(i)
        } else {
            first_of_kind(tags, k, i + 1)
        }
    } else {
        None
    }
}

/// The chosen tag from priority level `p` on: the first tag of the level's kind
/// where it has both title and artist; the first tag where no level gives one.
pub open spec fn best_from(tags: Seq<TagSummary>, p: int) -> Option<int>
    decreases 5 - p,
{
    if 0 <= p < 5 {
        match first_of_kind(tags, priority()[p], 0) {
            Some(i) => if tags[i].has_title && tags[i].has_artist {
                Some(i)
            } else {
                best_from(tags, p + 1)
            },
            None => best_from(tags, p + 1),
        }
    } else if tags.len() > 0 {
        Some(0)
    } else {
        None
    }
}

fn first_kind_index(tags: &Vec<TagSummary>, k: TagKind) -> (r: Option<usize>)
    ensures
        match r {
            Some(i) => first_of_kind(tags@, k, 0) == Some(i as int) && i < tags@.len(),
            None => first_of_kind(tags@, k, 0) is None,
        },
{
    let mut i: usize = 0;
    while i < tags.len()
        invariant
            i <= tags@.len(),
            first_of_kind(tags@, k, 0) == first_of_kind(tags@, k, i as int),
        decreases tags@.len() - i,
    {
        if tags[i].kind == k {
            return Some(i);
        }
        i = i + 1;
    }
    None
}

/// Index of the tag to read: by priority, the first tag of a kind that has both
/// title and artist; otherwise the first tag.
pub fn extract_besttag(tags: &Vec<TagSummary>) -> (r: Option<usize>)
    ensures
        match r {
            Some(i) => best_from(tags@, 0) == Some(i as int) && i < tags@.len(),
            None => best_from(tags@, 0) is None,
        },
{
    let order = [TagKind::Id3v2, TagKind::VorbisComments, TagKind::Mp4Ilst, TagKind::Ape, TagKind::Id3v1];
    let mut p: usize = 0;
    while p < 5
        invariant
            p <= 5,
            order@ == priority(),
            best_from(tags@, 0) == best_from(tags@, p as int),
        decreases 5 - p,
    {
        if let Some(i) = first_kind_index(tags, order[p]) {
            if tags[i].has_title && tags[i].has_artist {
                return Some(i);
            }
        }
        p = p + 1;
    }
    if tags.len() > 0 {
        Some(0)
    } else {
        None
    }
}

impl BaseFileMetadata {
    /// A file row not yet placed in a book (its book id is -99).
    pub fn new(
        file_path: String,
        file_id: Option<i64>,
        file_name: String,
        duration: Option<i64>,
        channels: Option<i64>,
        sample_rate: Option<i64>,
        bitrate: Option<i64>,
    ) -> (r: BaseFileMetadata)
        ensures
            r.book_id == -99,
            r.file_id == file_id,
            r.file_name == file_name,
            r.file_path == file_path,
            r.duration == duration,
            r.channels == channels,
            r.sample_rate == sample_rate,
            r.bitrate == bitrate,
    {
        BaseFileMetadata {
            book_id: -99,
            file_id,
            file_name,
            file_path,
            duration,
            channels,
            sample_rate,
            bitrate,
        }
    }
}

} // verus!
