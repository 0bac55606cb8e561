use vstd::prelude::*;
use crate::status::ResolvedStatus;

verus! {

pub open spec fn opt_view(o: Option<String>) -> Option<Seq<char>> {
    match o {
        Some(s) => Some(s@),
        None => None,
    }
}

/// One audio file as last observed on disk: what the walk, the probe and the
/// normalizer found.
#[derive(Debug, Clone)]
pub struct FileScanCache {
    pub author: Option<String>,
    pub title: Option<String>,
    pub clean_title: Option<String>,
    pub file_path: String,
    pub path_parent: String,
    pub file_name: String,
    pub series: Option<String>,
    pub dramatized: bool,
    pub clean_series: Option<String>,
    pub series_part: Option<i64>,
    pub cover_art: Option<String>,
    pub pub_year: Option<i64>,
    pub narrated_by: Option<String>,
    pub duration: Option<i64>,
    pub track_number: Option<i64>,
    pub disc_number: Option<i64>,
    pub file_size: i64,
    pub mime_type: Option<String>,
    pub channels: Option<i64>,
    pub sample_rate: Option<i64>,
    pub bitrate: Option<i64>,
    pub extracts: Option<String>,
    pub raw_metadata: Option<String>,
    pub hash: Option<String>,
    pub resolve_status: ResolvedStatus,
}

pub struct FileScanCacheView {
    pub author: Option<Seq<char>>,
    pub title: Option<Seq<char>>,
    pub clean_title: Option<Seq<char>>,
    pub file_path: Seq<char>,
    pub path_parent: Seq<char>,
    pub file_name: Seq<char>,
    pub series: Option<Seq<char>>,
    pub dramatized: bool,
    pub clean_series: Option<Seq<char>>,
    pub series_part: Option<i64>,
    pub cover_art: Option<Seq<char>>,
    pub pub_year: Option<i64>,
    pub narrated_by: Option<Seq<char>>,
    pub duration: Option<i64>,
    pub track_number: Option<i64>,
    pub disc_number: Option<i64>,
    pub file_size: i64,
    pub mime_type: Option<Seq<char>>,
    pub channels: Option<i64>,
    pub sample_rate: Option<i64>,
    pub bitrate: Option<i64>,
    pub extracts: Option<Seq<char>>,
    pub raw_metadata: Option<Seq<char>>,
    pub hash: Option<Seq<char>>,
    pub resolve_status: ResolvedStatus,
}

impl View for FileScanCache {
    type V = FileScanCacheView;

    open spec fn view(&self) -> FileScanCacheView {
        FileScanCacheView {
            author: opt_view(self.author),
            title: opt_view(self.title),
            clean_title: opt_view(self.clean_title),
            file_path: self.file_path@,
            path_parent: self.path_parent@,
            file_name: self.file_name@,
            series: opt_view(self.series),
            dramatized: self.dramatized,
            clean_series: opt_view(self.clean_series),
            series_part: self.series_part,
            cover_art: opt_view(self.cover_art),
            pub_year: self.pub_year,
            narrated_by: opt_view(self.narrated_by),
            duration: self.duration,
            track_number: self.track_number,
            disc_number: self.disc_number,
            file_size: self.file_size,
            mime_type: opt_view(self.mime_type),
            channels: self.channels,
            sample_rate: self.sample_rate,
            bitrate: self.bitrate,
            extracts: opt_view(self.extracts),
            raw_metadata: opt_view(self.raw_metadata),
            hash: opt_view(self.hash),
            resolve_status: self.resolve_status,
        }
    }
}

impl FileScanCache {
    /// A record for a file seen on disk, with nothing probed yet.
    pub fn new(file_path: String, file_name: String, path_parent: String) -> (r: FileScanCache)
        ensures
            r@ == (FileScanCacheView {
                author: None,
                title: None,
                clean_title: None,
                file_path: file_path@,
                path_parent: path_parent@,
                file_name: file_name@,
                series: None,
                dramatized: false,
                clean_series: None,
                series_part: None,
                cover_art: None,
                pub_year: None,
                narrated_by: None,
                duration: None,
                track_number: None,
                disc_number: None,
                file_size: 0,
                mime_type: None,
                channels: None,
                sample_rate: None,
                bitrate: None,
                extracts: None,
                raw_metadata: None,
                hash: None,
                resolve_status: ResolvedStatus::UnResolved,
            }),
    {
        FileScanCache {
            file_path: file_path,
            file_name: file_name,
            path_parent: path_parent,
            dramatized: false,
            duration: None,
            file_size: 0,
            author: None,
            title: None,
            clean_title: None,
            series: None,
            clean_series: None,
            series_part: None,
            cover_art: None,
            pub_year: None,
            narrated_by: None,
            track_number: None,
            disc_number: None,
            mime_type: None,
            channels: None,
            sample_rate: None,
            bitrate: None,
            extracts: None,
            raw_metadata: None,
            hash: None,
            resolve_status: ResolvedStatus::UnResolved,
        }
    }
}

} // verus!
