//! What the command-line commands compute: cleaning one file, combining two,
//! and preparing the inputs of an export.
use vstd::prelude::*;

use crate::align::{combine_files, combines};
use crate::clean::clean_cues;
use crate::cue::SubtitleFile;
use crate::decode::parse_bytes;
use crate::error::SubError;
use crate::render::{bilingual_text, file_text};

verus! {

/// An export request: which artifact to produce from which inputs.
pub enum ExportFormat {
    /// CSV file and media for use with Anki.
    Csv { video: String, foreign_subs: String, native_subs: Option<String> },
    /// HTML page for reviewing the subtitles.
    Review { video: String, foreign_subs: String, native_subs: Option<String> },
    /// MP3 tracks for listening on the go.
    Tracks { video: String, foreign_subs: String },
}

impl ExportFormat {
    /// The name of the export format.
    pub fn name(&self) -> (r: &'static str)
        ensures
            r@ == match self {
                ExportFormat::Csv { .. } => "csv"@,
                ExportFormat::Review { .. } => "review"@,
                ExportFormat::Tracks { .. } => "tracks"@,
            },
    {
        match self {
            ExportFormat::Csv { .. } => "csv",
            ExportFormat::Review { .. } => "review",
            ExportFormat::Tracks { .. } => "tracks",
        }
    }

    /// The path to the video.
    pub fn video(&self) -> (r: &String)
        ensures
            *r == match self {
                ExportFormat::Csv { video, .. } => *video,
                ExportFormat::Review { video, .. } => *video,
                ExportFormat::Tracks { video, .. } => *video,
            },
    {
        match self {
            ExportFormat::Csv { video, .. } => video,
            ExportFormat::Review { video, .. } => video,
            ExportFormat::Tracks { video, .. } => video,
        }
    }

    /// The path to the foreign-language subtitles.
    pub fn foreign_subs(&self) -> (r: &String)
        ensures
            *r == match self {
                ExportFormat::Csv { foreign_subs, .. } => *foreign_subs,
                ExportFormat::Review { foreign_subs, .. } => *foreign_subs,
                ExportFormat::Tracks { foreign_subs, .. } => *foreign_subs,
            },
    {
        match self {
            ExportFormat::Csv { foreign_subs, .. } => foreign_subs,
            ExportFormat::Review { foreign_subs, .. } => foreign_subs,
            ExportFormat::Tracks { foreign_subs, .. } => foreign_subs,
        }
    }

    /// The path to the native-language subtitles, if the format takes them.
    pub fn native_subs(&self) -> (r: Option<&String>)
        ensures
            match self {
                ExportFormat::Csv { native_subs, .. } => r == match native_subs {
                    Some(p) => Some(p),
                    None => None::<&String>,
                },
                ExportFormat::Review { native_subs, .. } => r == match native_subs {
                    Some(p) => Some(p),
                    None => None::<&String>,
                },
                ExportFormat::Tracks { .. } => r is None,
            },
    {
        match self {
            ExportFormat::Csv { native_subs, .. } => native_subs.as_ref(),
            ExportFormat::Review { native_subs, .. } => native_subs.as_ref(),
            ExportFormat::Tracks { .. } => None,
        }
    }
}

/// The artifact an export produces.
#[derive(Debug, Clone, Copy, PartialEq, Eq, Structural)]
pub enum ExportKind {
    Csv,
    Review,
    Tracks,
}

/// Everything an exporter needs besides the video: the kind of artifact and
/// the cleaned subtitle tracks.
pub struct ExportJob {
    pub kind: ExportKind,
    pub foreign: SubtitleFile,
    pub native: Option<SubtitleFile>,
}

/// Cleaned cues of a file's bytes, as `cleaned_from_bytes` returns them.
pub open spec fn cleaned(b: Seq<u8>) -> Result<Seq<crate::cue::CueModel>, SubError> {
    match parse_bytes(b) {
        Ok(cs) => Ok(clean_cues(cs)),
        Err(e) => Err(e),
    }
}

/// Prepares an export: reads and cleans the foreign track and, where the
/// format takes one and it is given, the native track.
pub fn cmd_export(format: &ExportFormat, foreign: &[u8], native: Option<&[u8]>) -> (r: Result<ExportJob, SubError>)
    ensures
        match r {
            Ok(job) => {
                &&& cleaned(foreign@) == Ok::<Seq<crate::cue::CueModel>, SubError>(job.foreign@)
                &&& job.kind == match format {
                    ExportFormat::Csv { .. } => ExportKind::Csv,
                    ExportFormat::Review { .. } => ExportKind::Review,
                    ExportFormat::Tracks { .. } => ExportKind::Tracks,
                }
                &&& match (format, native) {
                    (ExportFormat::Tracks { .. }, _) => job.native is None,
                    (_, None) => job.native is None,
                    (_, Some(b)) => job.native is Some && cleaned(b@) == Ok::<Seq<crate::cue::CueModel>, SubError>(job.native->Some_0@),
                }
            },
            Err(e) => if cleaned(foreign@) is Err {
                cleaned(foreign@) == Err::<Seq<crate::cue::CueModel>, SubError>(e)
            } else {
                !(format is Tracks) && native is Some && cleaned(native->Some_0@) == Err::<Seq<crate::cue::CueModel>, SubError>(e)
            },
        },
{
    let kind = match format {
        ExportFormat::Csv { .. } => ExportKind::Csv,
        ExportFormat::Review { .. } => ExportKind::Review,
        ExportFormat::Tracks { .. } => ExportKind::Tracks,
    };
    let foreign = match SubtitleFile::cleaned_from_bytes(foreign) {
        Ok(f) => f,
        Err(e) => return Err(e),
    };
    let native = match kind {
        ExportKind::Tracks => None,
        _ => match native {
            None => None,
            Some(b) => match SubtitleFile::cleaned_from_bytes(b) {
                Ok(f) => Some(f),
                Err(e) => return Err(e),
            },
        },
    };
    Ok(ExportJob { kind, foreign, native })
}

/// The cleaned text of a subtitle file.
pub fn cmd_clean(b: &[u8]) -> (r: Result<String, SubError>)
    ensures
        match r {
            Ok(s) => cleaned(b@) is Ok && s@ == file_text(cleaned(b@)->Ok_0),
            Err(e) => cleaned(b@) == Err::<Seq<crate::cue::CueModel>, SubError>(e),
        },
{
    match SubtitleFile::cleaned_from_bytes(b) {
        Ok(f) => Ok(f.to_text()),
        Err(e) => Err(e),
    }
}

/// The bilingual text of two cleaned subtitle files.
pub fn cmd_combine(foreign: &[u8], native: &[u8]) -> (r: Result<String, SubError>)
    ensures
        match r {
            Ok(s) => cleaned(foreign@) is Ok && cleaned(native@) is Ok && exists|x: Seq<crate::cue::BilingualModel>|
                #[trigger] combines(cleaned(foreign@)->Ok_0, cleaned(native@)->Ok_0, x)
                && s@ == bilingual_text(x),
            Err(e) => if cleaned(foreign@) is Err {
                cleaned(foreign@) == Err::<Seq<crate::cue::CueModel>, SubError>(e)
            } else {
                cleaned(native@) == Err::<Seq<crate::cue::CueModel>, SubError>(e)
            },
        },
{
    let f = match SubtitleFile::cleaned_from_bytes(foreign) {
        Ok(f) => f,
        Err(e) => return Err(e),
    };
    let n = match SubtitleFile::cleaned_from_bytes(native) {
        Ok(n) => n,
        Err(e) => return Err(e),
    };
    let c = combine_files(&f, &n);
    let s = c.to_text();
    assert(combines(cleaned(foreign@)->Ok_0, cleaned(native@)->Ok_0, c@));
    Ok(s)
}

} // verus!
