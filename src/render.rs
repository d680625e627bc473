//! Writing cues back out in the numbered-block text format.
use vstd::prelude::*;

use crate::cue::{lines_view, BilingualFile, BilingualModel, CueModel, SubtitleFile};
use crate::text::{chars_of, string_of};
use crate::time::{padded, push_padded, timestamp_text, Time};

verus! {

/// Each line followed by a line break.
pub open spec fn text_lines(ls: Seq<Seq<char>>) -> Seq<char>
    decreases ls.len(),
{
    if ls.len() == 0 {
        seq![]
    } else {
        text_lines(ls.drop_last()) + ls.last() + seq!['\n']
    }
}

/// The separator between the two times of a block.
pub open spec fn arrow_text() -> Seq<char> {
    seq![' ', '-', '-', '>', ' ']
}

/// The index line and the timing line of a block.
pub open spec fn block_head(index: nat, start: nat, end: nat) -> Seq<char> {
    padded(index, 1) + seq!['\n'] + timestamp_text(start) + arrow_text() + timestamp_text(end)
        + seq!['\n']
}

/// The text of a file: its cues numbered from 1, each block ended by a blank line.
pub open spec fn file_text(cs: Seq<CueModel>) -> Seq<char>
    decreases cs.len(),
{
    if cs.len() == 0 {
        seq![]
    } else {
        let c = cs.last();
        file_text(cs.drop_last()) + block_head(cs.len(), c.start, c.end) + text_lines(c.lines)
            + seq!['\n']
    }
}

/// The text of a bilingual file: foreign lines, then native lines, in each block.
pub open spec fn bilingual_text(cs: Seq<BilingualModel>) -> Seq<char>
    decreases cs.len(),
{
    if cs.len() == 0 {
        seq![]
    } else {
        let c = cs.last();
        bilingual_text(cs.drop_last()) + block_head(cs.len(), c.start, c.end) + text_lines(c.foreign)
            + text_lines(c.native) + seq!['\n']
    }
}

fn push_str(out: &mut Vec<char>, s: &String)
    ensures
        final(out)@ == old(out)@ + s@,
{
    let cs = chars_of(s.as_str());
    let mut i: usize = 0;
    while i < cs.len()
        invariant
            i <= cs@.len(),
            cs@ == s@,
            out@ == old(out)@ + cs@.subrange(0, i as int),
        decreases cs@.len() - i,
    {
        out.push(cs[i]);
        i = i + 1;
        assert(out@ =~= old(out)@ + cs@.subrange(0, i as int));
    }
    assert(cs@.subrange(0, cs@.len() as int) =~= cs@);
}

fn push_lines(out: &mut Vec<char>, lines: &Vec<String>)
    ensures
        final(out)@ == old(out)@ + text_lines(lines_view(lines@)),
{
    let ghost ls = lines_view(lines@);
    let mut i: usize = 0;
    assert(old(out)@ + text_lines(ls.subrange(0, 0)) =~= old(out)@);
    while i < lines.len()
        invariant
            i <= lines@.len(),
            ls == lines_view(lines@),
            out@ == old(out)@ + text_lines(ls.subrange(0, i as int)),
        decreases lines@.len() - i,
    {
        assert(ls.subrange(0, i + 1).drop_last() =~= ls.subrange(0, i as int));
        let ghost before = out@;
        push_str(out, &lines[i]);
        out.push('\n');
        assert(out@ =~= old(out)@ + text_lines(ls.subrange(0, i + 1)));
        i = i + 1;
    }
    assert(ls.subrange(0, lines@.len() as int) =~= ls);
}

fn push_head(out: &mut Vec<char>, index: u64, start: Time, end: Time)
    ensures
        final(out)@ == old(out)@ + block_head(index as nat, start.ms as nat, end.ms as nat),
{
    push_padded(out, index, 1);
    out.push('\n');
    start.push_text(out);
    out.push(' ');
    out.push('-');
    out.push('-');
    out.push('>');
    out.push(' ');
    end.push_text(out);
    out.push('\n');
    assert(final(out)@ =~= old(out)@ + block_head(index as nat, start.ms as nat, end.ms as nat));
}

impl SubtitleFile {
    /// The file in the numbered-block text format, cues numbered from 1.
    pub fn to_text(&self) -> (r: String)
        ensures
            r@ == file_text(self@),
    {
        let mut out: Vec<char> = Vec::new();
        let mut i: usize = 0;
        assert(out@ =~= file_text(self@.subrange(0, 0)));
        while i < self.cues.len()
            invariant
                i <= self@.len(),
                out@ == file_text(self@.subrange(0, i as int)),
            decreases self@.len() - i,
        {
            let ghost sub = self@.subrange(0, i + 1);
            assert(sub.drop_last() =~= self@.subrange(0, i as int));
            let c = &self.cues[i];
            push_head(&mut out, (i + 1) as u64, c.start, c.end);
            push_lines(&mut out, &c.lines);
            out.push('\n');
            assert(out@ =~= file_text(sub));
            i = i + 1;
        }
        assert(self@.subrange(0, self@.len() as int) =~= self@);
        string_of(out.as_slice())
    }
}

impl BilingualFile {
    /// The file in the numbered-block text format, foreign lines above native ones.
    pub fn to_text(&self) -> (r: String)
        ensures
            r@ == bilingual_text(self@),
    {
        let mut out: Vec<char> = Vec::new();
        let mut i: usize = 0;
        assert(out@ =~= bilingual_text(self@.subrange(0, 0)));
        while i < self.cues.len()
            invariant
                i <= self@.len(),
                out@ == bilingual_text(self@.subrange(0, i as int)),
            decreases self@.len() - i,
        {
            let ghost sub = self@.subrange(0, i + 1);
            assert(sub.drop_last() =~= self@.subrange(0, i as int));
            let c = &self.cues[i];
            push_head(&mut out, (i + 1) as u64, c.start, c.end);
            push_lines(&mut out, &c.foreign_lines);
            push_lines(&mut out, &c.native_lines);
            out.push('\n');
            assert(out@ =~= bilingual_text(sub));
            i = i + 1;
        }
        assert(self@.subrange(0, self@.len() as int) =~= self@);
        string_of(out.as_slice())
    }
}

} // verus!
