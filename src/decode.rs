//! Turning the bytes of a subtitle file into text: UTF-8 first, then
//! Windows-1252.
use vstd::prelude::*;

use crate::cue::{CueModel, SubtitleFile};
use crate::error::SubError;
use crate::srt::parse_text;
use crate::text::chars_of;

verus! {

/// The text that `b` encodes in UTF-8, or `None` when `b` is not valid UTF-8.
pub uninterp spec fn utf8_decode(b: Seq<u8>) -> Option<Seq<char>>;

/// Relies on `std::str::from_utf8`: it accepts exactly the valid UTF-8 byte
/// strings and yields the text they encode.
#[verifier::external_body]
fn utf8_text(b: &[u8]) -> (r: Option<String>)
    ensures
        match r {
            Some(s) => utf8_decode(b@) == Some(s@),
            None => utf8_decode(b@) is None,
        },
{
    std::str::from_utf8(b).ok().map(|s| s.to_string())
}

/// The Windows-1252 char of a byte; five bytes have none.
pub open spec fn cp1252_char(b: u8) -> Option<char> {
    if b < 0x80 || b >= 0xA0 {
        Some(b as char)
    } else if b == 0x80 { Some('\u{20AC}') }
    else if b == 0x82 { Some('\u{201A}') }
    else if b == 0x83 { Some('\u{0192}') }
    else if b == 0x84 { Some('\u{201E}') }
    else if b == 0x85 { Some('\u{2026}') }
    else if b == 0x86 { Some('\u{2020}') }
    else if b == 0x87 { Some('\u{2021}') }
    else if b == 0x88 { Some('\u{02C6}') }
    else if b == 0x89 { Some('\u{2030}') }
    else if b == 0x8A { Some('\u{0160}') }
    else if b == 0x8B { Some('\u{2039}') }
    else if b == 0x8C { Some('\u{0152}') }
    else if b == 0x8E { Some('\u{017D}') }
    else if b == 0x91 { Some('\u{2018}') }
    else if b == 0x92 { Some('\u{2019}') }
    else if b == 0x93 { Some('\u{201C}') }
    else if b == 0x94 { Some('\u{201D}') }
    else if b == 0x95 { Some('\u{2022}') }
    else if b == 0x96 { Some('\u{2013}') }
    else if b == 0x97 { Some('\u{2014}') }
    else if b == 0x98 { Some('\u{02DC}') }
    else if b == 0x99 { Some('\u{2122}') }
    else if b == 0x9A { Some('\u{0161}') }
    else if b == 0x9B { Some('\u{203A}') }
    else if b == 0x9C { Some('\u{0153}') }
    else if b == 0x9E { Some('\u{017E}') }
    else if b == 0x9F { Some('\u{0178}') }
    else { None }
}

/// Executable form of `cp1252_char`.
fn cp1252(b: u8) -> (r: Option<char>)
    ensures
        r == cp1252_char(b),
{
    if b < 0x80 || b >= 0xA0 {
        Some(b as char)
    } else if b == 0x80 { Some('\u{20AC}') }
    else if b == 0x82 { Some('\u{201A}') }
    else if b == 0x83 { Some('\u{0192}') }
    else if b == 0x84 { Some('\u{201E}') }
    else if b == 0x85 { Some('\u{2026}') }
    else if b == 0x86 { Some('\u{2020}') }
    else if b == 0x87 { Some('\u{2021}') }
    else if b == 0x88 { Some('\u{02C6}') }
    else if b == 0x89 { Some('\u{2030}') }
    else if b == 0x8A { Some('\u{0160}') }
    else if b == 0x8B { Some('\u{2039}') }
    else if b == 0x8C { Some('\u{0152}') }
    else if b == 0x8E { Some('\u{017D}') }
    else if b == 0x91 { Some('\u{2018}') }
    else if b == 0x92 { Some('\u{2019}') }
    else if b == 0x93 { Some('\u{201C}') }
    else if b == 0x94 { Some('\u{201D}') }
    else if b == 0x95 { Some('\u{2022}') }
    else if b == 0x96 { Some('\u{2013}') }
    else if b == 0x97 { Some('\u{2014}') }
    else if b == 0x98 { Some('\u{02DC}') }
    else if b == 0x99 { Some('\u{2122}') }
    else if b == 0x9A { Some('\u{0161}') }
    else if b == 0x9B { Some('\u{203A}') }
    else if b == 0x9C { Some('\u{0153}') }
    else if b == 0x9E { Some('\u{017E}') }
    else if b == 0x9F { Some('\u{0178}') }
    else { None }
}

/// The Windows-1252 text of `b`, or `None` when a byte has no char there.
pub open spec fn cp1252_decode(b: Seq<u8>) -> Option<Seq<char>> {
    if forall|i: int| 0 <= i < b.len() ==> (#[trigger] cp1252_char(b[i])) is Some {
        Some(Seq::new(b.len(), |i: int| cp1252_char(b[i]).unwrap()))
    } else {
        None
    }
}

/// `s` without a leading byte-order mark.
pub open spec fn without_bom(s: Seq<char>) -> Seq<char> {
    if s.len() > 0 && s[0] == '\u{FEFF}' { s.drop_first() } else { s }
}

/// The text of a subtitle file's bytes: UTF-8 when they are valid UTF-8
/// (a byte-order mark dropped), else Windows-1252, else none.
pub open spec fn decode_text(b: Seq<u8>) -> Option<Seq<char>> {
    match utf8_decode(b) {
        Some(s) => Some(without_bom(s)),
        None => cp1252_decode(b),
    }
}

fn windows_1252(b: &[u8]) -> (r: Option<Vec<char>>)
    ensures
        match r {
            Some(v) => cp1252_decode(b@) == Some(v@),
            None => cp1252_decode(b@) is None,
        },
{
    let mut out: Vec<char> = Vec::new();
    let mut i: usize = 0;
    while i < b.len()
        invariant
            i <= b@.len(),
            out@.len() == i,
            forall|j: int| 0 <= j < i ==> (#[trigger] cp1252_char(b@[j])) == Some(out@[j]),
        decreases b@.len() - i,
    {
        match cp1252(b[i]) {
            Some(c) => out.push(c),
            None => {
                assert(cp1252_char(b@[i as int]) is None);
                return None;
            },
        }
        i = i + 1;
    }
    assert(out@ =~= Seq::new(b@.len(), |j: int| cp1252_char(b@[j]).unwrap()));
    Some(out)
}

/// Decodes the bytes of a subtitle file.
pub fn decode(b: &[u8]) -> (r: Result<Vec<char>, SubError>)
    ensures
        match r {
            Ok(v) => decode_text(b@) == Some(v@),
            Err(e) => decode_text(b@) is None && e == SubError::UndecodableFile,
        },
{
    match utf8_text(b) {
        Some(s) => {
            let cs = chars_of(s.as_str());
            if cs.len() > 0 && cs[0] == '\u{FEFF}' {
                let mut out: Vec<char> = Vec::new();
                let mut i: usize = 1;
                while i < cs.len()
                    invariant
                        1 <= i <= cs@.len(),
                        out@ == cs@.subrange(1, i as int),
                    decreases cs@.len() - i,
                {
                    out.push(cs[i]);
                    i = i + 1;
                    assert(out@ =~= cs@.subrange(1, i as int));
                }
                assert(out@ =~= cs@.drop_first());
                Ok(out)
            } else {
                Ok(cs)
            }
        },
        None => match windows_1252(b) {
            Some(v) => Ok(v),
            None => Err(SubError::UndecodableFile),
        },
    }
}

/// What reading the bytes `b` as a subtitle file yields.
pub open spec fn parse_bytes(b: Seq<u8>) -> Result<Seq<CueModel>, SubError> {
    match decode_text(b) {
        None => Err(SubError::UndecodableFile),
        Some(s) => parse_text(s),
    }
}

impl SubtitleFile {
    /// Reads a subtitle file from its bytes, whatever their encoding.
    pub fn from_bytes(b: &[u8]) -> (r: Result<SubtitleFile, SubError>)
        ensures
            match r {
                Ok(f) => parse_bytes(b@) == Ok::<Seq<CueModel>, SubError>(f@) && f.wf(),
                Err(e) => parse_bytes(b@) == Err::<Seq<CueModel>, SubError>(e),
            },
    {
        match decode(b) {
            Ok(cs) => SubtitleFile::from_chars(cs.as_slice()),
            Err(e) => Err(e),
        }
    }

    /// Reads a subtitle file from text.
    pub fn from_text(text: &str) -> (r: Result<SubtitleFile, SubError>)
        ensures
            match r {
                Ok(f) => parse_text(text@) == Ok::<Seq<CueModel>, SubError>(f@) && f.wf(),
                Err(e) => parse_text(text@) == Err::<Seq<CueModel>, SubError>(e),
            },
    {
        let cs = chars_of(text);
        SubtitleFile::from_chars(cs.as_slice())
    }

    /// Reads a subtitle file from its bytes and cleans it.
    pub fn cleaned_from_bytes(b: &[u8]) -> (r: Result<SubtitleFile, SubError>)
        ensures
            match r {
                Ok(f) => parse_bytes(b@) is Ok && f@ == crate::clean::clean_cues(parse_bytes(b@)->Ok_0)
                    && f.wf(),
                Err(e) => parse_bytes(b@) == Err::<Seq<CueModel>, SubError>(e),
            },
    {
        match SubtitleFile::from_bytes(b) {
            Ok(f) => Ok(f.clean()),
            Err(e) => Err(e),
        }
    }
}

} // verus!
