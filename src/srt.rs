//! Parsing subtitle text into cues: lines, blank-line separated blocks, and
//! the index / timestamp / text structure of each block.
use vstd::prelude::*;

use crate::cue::{cues_view, sorted_by_start, Cue, CueModel, SubtitleFile};
use crate::error::SubError;
use crate::text::{string_of, trim_bounds, trimmed};
use crate::time::{parse_timestamp, Time};

verus! {

/// The lines of `s`, cut at each `'\n'` (the last line may be empty).
pub open spec fn split_lines(s: Seq<char>) -> Seq<Seq<char>>
    decreases s.len(),
{
    if s.len() == 0 {
        seq![seq![]]
    } else {
        let p = split_lines(s.drop_last());
        if s.last() == '\n' {
            p.push(seq![])
        } else {
            p.update(p.len() - 1, p.last().push(s.last()))
        }
    }
}

pub open spec fn is_blank(l: Seq<char>) -> bool {
    trimmed(l).len() == 0
}

/// The blocks closed so far and the block still open.
pub open spec fn group(ls: Seq<Seq<char>>) -> (Seq<Seq<Seq<char>>>, Seq<Seq<char>>)
    decreases ls.len(),
{
    if ls.len() == 0 {
        (seq![], seq![])
    } else {
        let (bs, cur) = group(ls.drop_last());
        if is_blank(ls.last()) {
            if cur.len() > 0 { (bs.push(cur), seq![]) } else { (bs, cur) }
        } else {
            (bs, cur.push(ls.last()))
        }
    }
}

/// The maximal runs of non-blank lines of `ls`.
pub open spec fn blocks(ls: Seq<Seq<char>>) -> Seq<Seq<Seq<char>>> {
    let (bs, cur) = group(ls);
    if cur.len() > 0 { bs.push(cur) } else { bs }
}

pub open spec fn arrow_at(l: Seq<char>, i: int) -> bool {
    0 <= i && i + 3 <= l.len() && l[i] == '-' && l[i + 1] == '-' && l[i + 2] == '>'
}

/// The first position at or after `k` where `-->` stands in `l`.
pub open spec fn arrow_from(l: Seq<char>, k: int) -> Option<int>
    decreases l.len() - k,
{
    if k < 0 || k + 3 > l.len() {
        None
    } else if arrow_at(l, k) {
        Some(k)
    } else {
        arrow_from(l, k + 1)
    }
}

/// The two times of a `start --> end` line, with `start <= end`.
pub open spec fn timing_line(l: Seq<char>) -> Option<(Time, Time)> {
    match arrow_from(l, 0) {
        None => None,
        Some(i) => match (
            parse_timestamp(trimmed(l.subrange(0, i))),
            parse_timestamp(trimmed(l.subrange(i + 3, l.len() as int))),
        ) {
            (Ok(a), Ok(b)) => if a.ms <= b.ms { Some((a, b)) } else { None },
            _ => None,
        },
    }
}

/// Where the timing line of a block stands: first when the index line is missing.
pub open spec fn timing_index(b: Seq<Seq<char>>) -> int {
    if arrow_from(b[0], 0) is Some { 0 } else { 1 }
}

/// The cue a block of non-blank lines describes, or `None` when the block is malformed.
pub open spec fn block_cue(b: Seq<Seq<char>>) -> Option<CueModel> {
    if b.len() == 0 {
        None
    } else {
        let ti = timing_index(b);
        if b.len() <= ti + 1 {
            None
        } else {
            match timing_line(b[ti]) {
                None => None,
                Some((a, e)) => Some(
                    CueModel {
                        start: a.ms as nat,
                        end: e.ms as nat,
                        lines: Seq::new((b.len() - ti - 1) as nat, |j: int| trimmed(b[ti + 1 + j])),
                    },
                ),
            }
        }
    }
}

/// The cues of blocks that must all be well formed, or the index of the first bad one.
pub open spec fn all_cues(bs: Seq<Seq<Seq<char>>>) -> Result<Seq<CueModel>, nat>
    decreases bs.len(),
{
    if bs.len() == 0 {
        Ok(seq![])
    } else {
        match all_cues(bs.drop_last()) {
            Err(k) => Err(k),
            Ok(p) => match block_cue(bs.last()) {
                Some(c) => Ok(p.push(c)),
                None => Err((bs.len() - 1) as nat),
            },
        }
    }
}

/// A block whose timing line is there but cannot be read.
pub open spec fn bad_timing(b: Seq<Seq<char>>) -> bool {
    &&& b.len() > timing_index(b)
    &&& arrow_from(b[timing_index(b)], 0) is Some
    &&& timing_line(b[timing_index(b)]) is None
}

/// The cues of the blocks in file order. A malformed final block is a
/// truncated tail and is ignored, unless its timing line is there and bad.
pub open spec fn block_cues(bs: Seq<Seq<Seq<char>>>) -> Result<Seq<CueModel>, SubError> {
    if bs.len() == 0 {
        Ok(seq![])
    } else {
        match all_cues(bs.drop_last()) {
            Err(k) => Err(SubError::MalformedCue { position: (k + 1) as usize }),
            Ok(p) => match block_cue(bs.last()) {
                Some(c) => Ok(p.push(c)),
                None => if bs.last().len() > 0 && bad_timing(bs.last()) {
                    Err(SubError::MalformedCue { position: bs.len() as usize })
                } else {
                    Ok(p)
                },
            },
        }
    }
}

/// `s` with `c` placed after every cue that starts no later than it.
pub open spec fn insert_by_start(s: Seq<CueModel>, c: CueModel) -> Seq<CueModel>
    decreases s.len(),
{
    if s.len() == 0 || s.last().start <= c.start {
        s.push(c)
    } else {
        insert_by_start(s.drop_last(), c).push(s.last())
    }
}

/// The stable sort of `s` by start time.
pub open spec fn sort_by_start(s: Seq<CueModel>) -> Seq<CueModel>
    decreases s.len(),
{
    if s.len() == 0 {
        seq![]
    } else {
        insert_by_start(sort_by_start(s.drop_last()), s.last())
    }
}

/// What parsing the text `s` yields.
pub open spec fn parse_text(s: Seq<char>) -> Result<Seq<CueModel>, SubError> {
    match block_cues(blocks(split_lines(s))) {
        Ok(cs) => Ok(sort_by_start(cs)),
        Err(e) => Err(e),
    }
}

/// The texts of a sequence of char vectors.
pub open spec fn texts(v: Seq<Vec<char>>) -> Seq<Seq<char>> {
    Seq::new(v.len(), |i: int| v[i]@)
}

/// The texts of a sequence of blocks.
pub open spec fn block_texts(v: Seq<Vec<Vec<char>>>) -> Seq<Seq<Seq<char>>> {
    Seq::new(v.len(), |i: int| texts(v[i]@))
}

/// Cuts `s` into lines at each `'\n'`.
pub fn lines_of(s: &[char]) -> (r: Vec<Vec<char>>)
    ensures
        texts(r@) == split_lines(s@),
{
    let mut done: Vec<Vec<char>> = Vec::new();
    let mut cur: Vec<char> = Vec::new();
    let mut i: usize = 0;
    assert(texts(done@).push(cur@) =~= split_lines(s@.subrange(0, 0)));
    while i < s.len()
        invariant
            i <= s@.len(),
            texts(done@).push(cur@) == split_lines(s@.subrange(0, i as int)),
        decreases s@.len() - i,
    {
        assert(s@.subrange(0, i + 1).drop_last() =~= s@.subrange(0, i as int));
        let ghost before = texts(done@).push(cur@);
        if s[i] == '\n' {
            done.push(cur);
            cur = Vec::new();
            assert(texts(done@).push(cur@) =~= before.push(seq![]));
        } else {
            cur.push(s[i]);
            assert(texts(done@).push(cur@) =~= before.update(before.len() - 1, before.last().push(s@[i as int])));
        }
        i = i + 1;
    }
    assert(s@.subrange(0, s@.len() as int) =~= s@);
    done.push(cur);
    done
}

fn blank(l: &Vec<char>) -> (r: bool)
    ensures
        r == is_blank(l@),
{
    let (lo, hi) = trim_bounds(l.as_slice());
    lo == hi
}

/// A copy of `v`.
pub fn copy_chars(v: &[char]) -> (r: Vec<char>)
    ensures
        r@ == v@,
{
    let mut r: Vec<char> = Vec::new();
    let mut i: usize = 0;
    while i < v.len()
        invariant
            i <= v@.len(),
            r@ == v@.subrange(0, i as int),
        decreases v@.len() - i,
    {
        r.push(v[i]);
        i = i + 1;
        assert(r@ =~= v@.subrange(0, i as int));
    }
    assert(r@ =~= v@);
    r
}

/// Groups lines into the maximal runs of non-blank lines.
pub fn blocks_of(lines: &Vec<Vec<char>>) -> (r: Vec<Vec<Vec<char>>>)
    ensures
        block_texts(r@) == blocks(texts(lines@)),
{
    let ghost ls = texts(lines@);
    let mut bs: Vec<Vec<Vec<char>>> = Vec::new();
    let mut cur: Vec<Vec<char>> = Vec::new();
    let rest = lines;
    let mut i: usize = 0;
    assert((block_texts(bs@), texts(cur@)) == group(ls.subrange(0, 0))) by {
        assert(block_texts(bs@) =~= Seq::<Seq<Seq<char>>>::empty());
        assert(texts(cur@) =~= Seq::<Seq<char>>::empty());
    }
    while i < rest.len()
        invariant
            i <= rest@.len(),
            ls == texts(rest@),
            (block_texts(bs@), texts(cur@)) == group(ls.subrange(0, i as int)),
        decreases rest@.len() - i,
    {
        assert(ls.subrange(0, i + 1).drop_last() =~= ls.subrange(0, i as int));
        let ghost bs0 = block_texts(bs@);
        let ghost cur0 = texts(cur@);
        if blank(&rest[i]) {
            if cur.len() > 0 {
                bs.push(cur);
                cur = Vec::new();
                assert(block_texts(bs@) =~= bs0.push(cur0));
                assert(texts(cur@) =~= Seq::<Seq<char>>::empty());
            }
        } else {
            let l = copy_chars(&rest[i]);
            cur.push(l);
            assert(texts(cur@) =~= cur0.push(ls[i as int]));
        }
        i = i + 1;
    }
    assert(ls.subrange(0, ls.len() as int) =~= ls);
    if cur.len() > 0 {
        let ghost bs0 = block_texts(bs@);
        let ghost cur0 = texts(cur@);
        bs.push(cur);
        assert(block_texts(bs@) =~= bs0.push(cur0));
    }
    bs
}

/// A copy of `s[lo..hi]`.
pub fn copy_range(s: &[char], lo: usize, hi: usize) -> (r: Vec<char>)
    requires
        lo <= hi <= s@.len(),
    ensures
        r@ == s@.subrange(lo as int, hi as int),
{
    let mut r: Vec<char> = Vec::new();
    let mut i: usize = lo;
    while i < hi
        invariant
            lo <= i <= hi <= s@.len(),
            r@ == s@.subrange(lo as int, i as int),
        decreases hi - i,
    {
        r.push(s[i]);
        i = i + 1;
        assert(r@ =~= s@.subrange(lo as int, i as int));
    }
    r
}

/// `s[lo..hi]` trimmed.
fn trimmed_range(s: &[char], lo: usize, hi: usize) -> (r: Vec<char>)
    requires
        lo <= hi <= s@.len(),
    ensures
        r@ == trimmed(s@.subrange(lo as int, hi as int)),
{
    let part = copy_range(s, lo, hi);
    let (a, b) = trim_bounds(part.as_slice());
    copy_range(part.as_slice(), a, b)
}

/// The first position of `-->` in `l`.
pub fn find_arrow(l: &[char]) -> (r: Option<usize>)
    ensures
        match r {
            Some(i) => arrow_from(l@, 0) == Some(i as int) && i + 3 <= l@.len(),
            None => arrow_from(l@, 0) is None,
        },
{
    let mut k: usize = 0;
    while k < l.len() && l.len() - k >= 3
        invariant
            k <= l@.len(),
            arrow_from(l@, 0) == arrow_from(l@, k as int),
        decreases l@.len() - k,
    {
        if l[k] == '-' && l[k + 1] == '-' && l[k + 2] == '>' {
            return Some(k);
        }
        k = k + 1;
    }
    None
}

/// Reads a `start --> end` line.
pub fn parse_timing(l: &[char]) -> (r: Option<(Time, Time)>)
    ensures
        r == timing_line(l@),
{
    let n = l.len();
    match find_arrow(l) {
        None => None,
        Some(i) => {
            let a = trimmed_range(l, 0, i);
            let b = trimmed_range(l, i + 3, n);
            match (Time::parse_chars(a.as_slice()), Time::parse_chars(b.as_slice())) {
                (Ok(x), Ok(y)) => if x.ms <= y.ms { Some((x, y)) } else { None },
                _ => None,
            }
        },
    }
}

/// The cue of one block, or `None` when the block is malformed.
pub fn parse_block(b: &Vec<Vec<char>>) -> (r: Option<Cue>)
    ensures
        match r {
            Some(c) => block_cue(texts(b@)) == Some(c@) && c.wf(),
            None => block_cue(texts(b@)) is None,
        },
{
    let ghost t = texts(b@);
    if b.len() == 0 {
        return None;
    }
    let ti: usize = if find_arrow(b[0].as_slice()).is_some() { 0 } else { 1 };
    assert(ti as int == timing_index(t));
    if b.len() <= ti + 1 {
        return None;
    }
    match parse_timing(b[ti].as_slice()) {
        None => None,
        Some((start, end)) => {
            let mut lines: Vec<String> = Vec::new();
            let mut j: usize = ti + 1;
            while j < b.len()
                invariant
                    ti + 1 <= j <= b@.len(),
                    t == texts(b@),
                    lines@.len() == j - ti - 1,
                    forall|k: int| 0 <= k < lines@.len() ==> (#[trigger] lines@[k])@ == trimmed(t[ti + 1 + k]),
                decreases b@.len() - j,
            {
                let v = trimmed_range(b[j].as_slice(), 0, b[j].len());
                assert(b@[j as int]@.subrange(0, b@[j as int]@.len() as int) =~= t[j as int]);
                lines.push(string_of(v.as_slice()));
                j = j + 1;
            }
            let c = Cue { start, end, lines };
            assert(c@.lines =~= Seq::new((t.len() - ti - 1) as nat, |k: int| trimmed(t[ti + 1 + k])));
            Some(c)
        },
    }
}

proof fn lemma_all_cues_err(bs: Seq<Seq<Seq<char>>>, i: int, j: int)
    requires
        0 <= i < j <= bs.len(),
        all_cues(bs.subrange(0, i + 1)) == Err::<Seq<CueModel>, nat>(i as nat),
    ensures
        all_cues(bs.subrange(0, j)) == Err::<Seq<CueModel>, nat>(i as nat),
    decreases j - i,
{
    if j > i + 1 {
        lemma_all_cues_err(bs, i, j - 1);
        assert(bs.subrange(0, j).drop_last() =~= bs.subrange(0, j - 1));
    }
}

/// Whether the timing line of a block is there but cannot be read.
fn timing_is_bad(b: &Vec<Vec<char>>) -> (r: bool)
    requires
        b@.len() > 0,
    ensures
        r == bad_timing(texts(b@)),
{
    let ti: usize = if find_arrow(b[0].as_slice()).is_some() { 0 } else { 1 };
    assert(ti as int == timing_index(texts(b@)));
    if b.len() <= ti {
        return false;
    }
    find_arrow(b[ti].as_slice()).is_some() && parse_timing(b[ti].as_slice()).is_none()
}

/// The cues of the blocks in file order; a truncated final block is ignored.
pub fn parse_blocks(bs: &Vec<Vec<Vec<char>>>) -> (r: Result<Vec<Cue>, SubError>)
    ensures
        match r {
            Ok(v) => block_cues(block_texts(bs@)) == Ok::<Seq<CueModel>, SubError>(cues_view(v@))
                && forall|i: int| 0 <= i < v@.len() ==> (#[trigger] v@[i]).wf(),
            Err(e) => block_cues(block_texts(bs@)) == Err::<Seq<CueModel>, SubError>(e),
        },
{
    let ghost bt = block_texts(bs@);
    let mut out: Vec<Cue> = Vec::new();
    let n = bs.len();
    if n == 0 {
        assert(cues_view(out@) =~= Seq::<CueModel>::empty());
        return Ok(out);
    }
    let mut i: usize = 0;
    assert(cues_view(out@) =~= Seq::<CueModel>::empty());
    while i < n - 1
        invariant
            n == bs@.len() == bt.len(),
            bt == block_texts(bs@),
            i <= n - 1,
            all_cues(bt.subrange(0, i as int)) == Ok::<Seq<CueModel>, nat>(cues_view(out@)),
            forall|k: int| 0 <= k < out@.len() ==> (#[trigger] out@[k]).wf(),
        decreases n - 1 - i,
    {
        assert(bt.subrange(0, i + 1).drop_last() =~= bt.subrange(0, i as int));
        assert(bt[i as int] == texts(bs@[i as int]@));
        match parse_block(&bs[i]) {
            Some(c) => {
                let ghost before = cues_view(out@);
                out.push(c);
                assert(cues_view(out@) =~= before.push(c@));
            },
            None => {
                proof {
                    lemma_all_cues_err(bt, i as int, n - 1);
                    assert(bt.drop_last() =~= bt.subrange(0, n - 1));
                }
                return Err(SubError::MalformedCue { position: i + 1 });
            },
        }
        i = i + 1;
    }
    assert(bt.drop_last() =~= bt.subrange(0, n - 1));
    assert(bt.last() == texts(bs@[n - 1]@));
    match parse_block(&bs[n - 1]) {
        Some(c) => {
            let ghost before = cues_view(out@);
            out.push(c);
            assert(cues_view(out@) =~= before.push(c@));
        },
        None => {
            if bs[n - 1].len() > 0 && timing_is_bad(&bs[n - 1]) {
                return Err(SubError::MalformedCue { position: n });
            }
        },
    }
    Ok(out)
}

proof fn lemma_insert_at(s: Seq<CueModel>, c: CueModel, k: int)
    requires
        0 <= k <= s.len(),
        forall|j: int| k <= j < s.len() ==> s[j].start > c.start,
        k == 0 || s[k - 1].start <= c.start,
    ensures
        insert_by_start(s, c) == s.insert(k, c),
    decreases s.len() - k,
{
    if k == s.len() {
        assert(s.push(c) =~= s.insert(k, c));
    } else {
        let d = s.drop_last();
        lemma_insert_at(d, c, k);
        assert(d.insert(k, c).push(s.last()) =~= s.insert(k, c));
    }
}

/// Orders cues by start time, keeping the file order of cues that start together.
pub fn sort_cues(v: &Vec<Cue>) -> (r: Vec<Cue>)
    ensures
        cues_view(r@) == sort_by_start(cues_view(v@)),
        (forall|i: int| 0 <= i < v@.len() ==> (#[trigger] v@[i]).wf()) ==> (forall|i: int|
            0 <= i < r@.len() ==> (#[trigger] r@[i]).wf()),
{
    let ghost m = cues_view(v@);
    let mut out: Vec<Cue> = Vec::new();
    let mut i: usize = 0;
    assert(cues_view(out@) =~= sort_by_start(m.subrange(0, 0)));
    while i < v.len()
        invariant
            i <= v@.len(),
            m == cues_view(v@),
            cues_view(out@) == sort_by_start(m.subrange(0, i as int)),
            (forall|j: int| 0 <= j < v@.len() ==> (#[trigger] v@[j]).wf()) ==> (forall|j: int|
                0 <= j < out@.len() ==> (#[trigger] out@[j]).wf()),
        decreases v@.len() - i,
    {
        assert(m.subrange(0, i + 1).drop_last() =~= m.subrange(0, i as int));
        let c = crate::cue::clone_cue(&v[i]);
        let mut k: usize = out.len();
        while k > 0 && out[k - 1].start.ms > c.start.ms
            invariant
                k <= out@.len(),
                forall|j: int| k <= j < out@.len() ==> (#[trigger] out@[j]).start.ms > c.start.ms,
            decreases k,
        {
            k = k - 1;
        }
        let ghost before = cues_view(out@);
        proof {
            lemma_insert_at(before, c@, k as int);
        }
        out.insert(k, c);
        assert(cues_view(out@) =~= before.insert(k as int, c@));
        i = i + 1;
    }
    assert(m.subrange(0, m.len() as int) =~= m);
    out
}

/// Every cue of `s` ends no earlier than it starts.
pub open spec fn all_timed(s: Seq<CueModel>) -> bool {
    forall|i: int| 0 <= i < s.len() ==> (#[trigger] s[i]).start <= s[i].end
}

proof fn lemma_insert_sorted(s: Seq<CueModel>, c: CueModel)
    requires
        sorted_by_start(s),
        c.start <= c.end,
    ensures
        sorted_by_start(insert_by_start(s, c)),
        s.len() > 0 ==> insert_by_start(s, c).last().start == if s.last().start <= c.start {
            c.start
        } else {
            s.last().start
        },
    decreases s.len(),
{
    let r = insert_by_start(s, c);
    if s.len() == 0 || s.last().start <= c.start {
        assert forall|i: int, j: int| 0 <= i < j < r.len() implies r[i].start <= r[j].start by {
            if j == r.len() - 1 && i < s.len() - 1 {
                assert(s[i].start <= s[s.len() - 1].start);
            }
        }
    } else {
        let d = s.drop_last();
        assert(sorted_by_start(d));
        lemma_insert_sorted(d, c);
        let p = insert_by_start(d, c);
        if d.len() > 0 {
            assert(d.last().start <= s.last().start);
        }
        assert forall|i: int, j: int| 0 <= i < j < r.len() implies r[i].start <= r[j].start by {
            if j == r.len() - 1 && i < p.len() - 1 {
                assert(p[i].start <= p[p.len() - 1].start);
            }
        }
        assert(r[r.len() - 1].start <= r[r.len() - 1].end);
    }
}

proof fn lemma_sort_sorted(s: Seq<CueModel>)
    requires
        all_timed(s),
    ensures
        sorted_by_start(sort_by_start(s)),
    decreases s.len(),
{
    if s.len() > 0 {
        assert(all_timed(s.drop_last()));
        lemma_sort_sorted(s.drop_last());
        assert(s.last().start <= s.last().end);
        lemma_insert_sorted(sort_by_start(s.drop_last()), s.last());
    }
}

proof fn lemma_all_cues_timed(bs: Seq<Seq<Seq<char>>>)
    ensures
        all_cues(bs) is Ok ==> all_timed(all_cues(bs)->Ok_0),
    decreases bs.len(),
{
    if bs.len() > 0 {
        lemma_all_cues_timed(bs.drop_last());
    }
}

/// The cues that parsing yields are ordered by start time, and none ends
/// before it starts.
pub proof fn lemma_parse_sorted(s: Seq<char>)
    ensures
        parse_text(s) is Ok ==> sorted_by_start(parse_text(s)->Ok_0),
{
    let bs = blocks(split_lines(s));
    if bs.len() > 0 {
        lemma_all_cues_timed(bs.drop_last());
    }
    if block_cues(bs) is Ok {
        lemma_sort_sorted(block_cues(bs)->Ok_0);
    }
}

impl SubtitleFile {
    /// Parses subtitle text: blocks of an optional index line, a
    /// `start --> end` line and text lines, separated by blank lines.
    pub fn from_chars(s: &[char]) -> (r: Result<SubtitleFile, SubError>)
        ensures
            match r {
                Ok(f) => parse_text(s@) == Ok::<Seq<CueModel>, SubError>(f@) && f.wf(),
                Err(e) => parse_text(s@) == Err::<Seq<CueModel>, SubError>(e),
            },
    {
        proof {
            lemma_parse_sorted(s@);
        }
        let lines = lines_of(s);
        let bs = blocks_of(&lines);
        match parse_blocks(&bs) {
            Ok(cues) => {
                let sorted = sort_cues(&cues);
                Ok(SubtitleFile { cues: sorted })
            },
            Err(e) => Err(e),
        }
    }
}

} // verus!
