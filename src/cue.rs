//! Cues, subtitle files and bilingual cues, with their mathematical models.
use vstd::prelude::*;

use crate::time::Time;

verus! {

/// A single timed subtitle entry: `[start, end)` and its on-screen lines.
pub struct Cue {
    pub start: Time,
    pub end: Time,
    pub lines: Vec<String>,
}

/// The model of a cue: times in milliseconds and the text of each line.
pub struct CueModel {
    pub start: nat,
    pub end: nat,
    pub lines: Seq<Seq<char>>,
}

/// The text of each string of `v`.
pub open spec fn lines_view(v: Seq<String>) -> Seq<Seq<char>> {
    Seq::new(v.len(), |i: int| v[i]@)
}

impl View for Cue {
    type V = CueModel;

    open spec fn view(&self) -> CueModel {
        CueModel {
            start: self.start.ms as nat,
            end: self.end.ms as nat,
            lines: lines_view(self.lines@),
        }
    }
}

impl Cue {
    /// A cue never ends before it starts.
    pub open spec fn wf(&self) -> bool {
        self.start.ms <= self.end.ms
    }

    /// A cue from its times and lines.
    pub fn new(start: Time, end: Time, lines: Vec<String>) -> (r: Cue)
        requires
            start.ms <= end.ms,
        ensures
            r.start == start,
            r.end == end,
            r.lines == lines,
            r.wf(),
    {
        Cue { start, end, lines }
    }
}

/// A subtitle track: its cues, in order of start time.
pub struct SubtitleFile {
    pub cues: Vec<Cue>,
}

/// The models of a sequence of cues.
pub open spec fn cues_view(v: Seq<Cue>) -> Seq<CueModel> {
    Seq::new(v.len(), |i: int| v[i]@)
}

impl View for SubtitleFile {
    type V = Seq<CueModel>;

    open spec fn view(&self) -> Seq<CueModel> {
        cues_view(self.cues@)
    }
}

/// Cues ordered by start time, none ending before it starts.
pub open spec fn sorted_by_start(s: Seq<CueModel>) -> bool {
    &&& forall|i: int, j: int| 0 <= i < j < s.len() ==> s[i].start <= s[j].start
    &&& forall|i: int| 0 <= i < s.len() ==> s[i].start <= #[trigger] s[i].end
}

impl SubtitleFile {
    /// Every cue is well formed and the cues are ordered by start time.
    pub open spec fn wf(&self) -> bool {
        sorted_by_start(self@)
    }

    /// A file holding no cues.
    pub fn empty() -> (r: SubtitleFile)
        ensures
            r@ == Seq::<CueModel>::empty(),
    {
        let r = SubtitleFile { cues: Vec::new() };
        assert(r@ =~= Seq::<CueModel>::empty());
        r
    }
}

/// An interval of the combined timeline with the text of each track during it.
pub struct BilingualCue {
    pub start: Time,
    pub end: Time,
    pub foreign_lines: Vec<String>,
    pub native_lines: Vec<String>,
}

/// The model of a bilingual cue.
pub struct BilingualModel {
    pub start: nat,
    pub end: nat,
    pub foreign: Seq<Seq<char>>,
    pub native: Seq<Seq<char>>,
}

impl View for BilingualCue {
    type V = BilingualModel;

    open spec fn view(&self) -> BilingualModel {
        BilingualModel {
            start: self.start.ms as nat,
            end: self.end.ms as nat,
            foreign: lines_view(self.foreign_lines@),
            native: lines_view(self.native_lines@),
        }
    }
}

/// The result of combining two tracks: bilingual cues in timeline order.
pub struct BilingualFile {
    pub cues: Vec<BilingualCue>,
}

impl View for BilingualFile {
    type V = Seq<BilingualModel>;

    open spec fn view(&self) -> Seq<BilingualModel> {
        Seq::new(self.cues@.len(), |i: int| self.cues@[i]@)
    }
}

/// A copy of `v`, string by string.
pub fn clone_lines(v: &Vec<String>) -> (r: Vec<String>)
    ensures
        lines_view(r@) == lines_view(v@),
{
    let mut r: Vec<String> = Vec::new();
    let mut i: usize = 0;
    while i < v.len()
        invariant
            i <= v@.len(),
            r@.len() == i,
            forall|j: int| 0 <= j < i ==> (#[trigger] r@[j])@ == v@[j]@,
        decreases v@.len() - i,
    {
        r.push(v[i].clone());
        i = i + 1;
    }
    assert(lines_view(r@) =~= lines_view(v@));
    r
}

/// Whether two line lists hold the same text.
pub fn same_lines(a: &Vec<String>, b: &Vec<String>) -> (r: bool)
    ensures
        r == (lines_view(a@) == lines_view(b@)),
{
    if a.len() != b.len() {
        assert(lines_view(a@).len() != lines_view(b@).len());
        return false;
    }
    let mut i: usize = 0;
    while i < a.len()
        invariant
            i <= a@.len() == b@.len(),
            forall|j: int| 0 <= j < i ==> (#[trigger] a@[j])@ == b@[j]@,
        decreases a@.len() - i,
    {
        if a[i] != b[i] {
            assert(lines_view(a@)[i as int] != lines_view(b@)[i as int]);
            return false;
        }
        i = i + 1;
    }
    assert(lines_view(a@) =~= lines_view(b@));
    true
}

/// A copy of a cue.
pub fn clone_cue(c: &Cue) -> (r: Cue)
    ensures
        r@ == c@,
{
    Cue { start: c.start, end: c.end, lines: clone_lines(&c.lines) }
}

} // verus!
