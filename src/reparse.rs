//! Reading written subtitle text back: the text that `to_text` writes for
//! parsed cues parses to the same cues.
use vstd::prelude::*;

use crate::clean::{
    clean_cues, clean_line, clean_lines, lemma_clean_idempotent, lemma_clean_sorted,
    lemma_squeeze_props, squeeze, strip_markup,
};
use crate::cue::{sorted_by_start, CueModel};
use crate::render::{arrow_text, block_head, file_text, text_lines};
use crate::srt::{
    all_cues, arrow_at, arrow_from, bad_timing, block_cue, block_cues, blocks, group, insert_by_start,
    is_blank, parse_text, sort_by_start, split_lines, timing_line,
};
use crate::text::{is_space, trimmed};
use crate::time::{
    all_digits, is_digit, lemma_padded, lemma_timestamp_round_trip, padded, parse_timestamp,
    pow10, timestamp_text, Time, MAX_MILLIS,
};

verus! {

pub open spec fn no_newline(l: Seq<char>) -> bool {
    forall|i: int| 0 <= i < l.len() ==> l[i] != '\n'
}

/// A line that writing and reading back keeps: non-empty, trimmed, one line.
pub open spec fn plain_line(l: Seq<char>) -> bool {
    l.len() > 0 && trimmed(l) == l && no_newline(l)
}

/// A cue that writing and reading back keeps.
pub open spec fn plain_cue(c: CueModel) -> bool {
    &&& c.start <= c.end <= MAX_MILLIS
    &&& c.lines.len() > 0
    &&& forall|j: int| 0 <= j < c.lines.len() ==> plain_line(#[trigger] c.lines[j])
}

pub open spec fn all_plain(cs: Seq<CueModel>) -> bool {
    forall|i: int| 0 <= i < cs.len() ==> plain_cue(#[trigger] cs[i])
}

/// The timing line written for a cue.
pub open spec fn timing_text(c: CueModel) -> Seq<char> {
    timestamp_text(c.start) + arrow_text() + timestamp_text(c.end)
}

/// The non-blank lines written for the cue numbered `k`.
pub open spec fn cue_block(k: nat, c: CueModel) -> Seq<Seq<char>> {
    seq![padded(k, 1), timing_text(c)] + c.lines
}

/// The lines written for `cs`, each block followed by an empty line.
pub open spec fn doc_lines(cs: Seq<CueModel>) -> Seq<Seq<char>>
    decreases cs.len(),
{
    if cs.len() == 0 {
        seq![]
    } else {
        doc_lines(cs.drop_last()) + cue_block(cs.len(), cs.last()) + seq![seq![]]
    }
}

pub open spec fn cue_blocks(cs: Seq<CueModel>) -> Seq<Seq<Seq<char>>> {
    Seq::new(cs.len(), |i: int| cue_block((i + 1) as nat, cs[i]))
}

proof fn lemma_split_nonempty(s: Seq<char>)
    ensures
        split_lines(s).len() >= 1,
    decreases s.len(),
{
    if s.len() > 0 {
        lemma_split_nonempty(s.drop_last());
    }
}

proof fn lemma_split_extend(x: Seq<char>, l: Seq<char>)
    requires
        no_newline(l),
    ensures
        split_lines(x + l) == split_lines(x).update(
            split_lines(x).len() - 1,
            split_lines(x).last() + l,
        ),
    decreases l.len(),
{
    lemma_split_nonempty(x);
    if l.len() == 0 {
        assert(x + l =~= x);
        assert(split_lines(x).last() + l =~= split_lines(x).last());
        assert(split_lines(x).update(split_lines(x).len() - 1, split_lines(x).last()) =~= split_lines(x));
    } else {
        let d = l.drop_last();
        lemma_split_extend(x, d);
        assert((x + l).drop_last() =~= x + d);
        assert((x + l).last() == l.last());
        assert(l[l.len() - 1] != '\n');
        assert((split_lines(x).last() + d).push(l.last()) =~= split_lines(x).last() + l);
        assert(split_lines(x + l) =~= split_lines(x).update(split_lines(x).len() - 1, split_lines(x).last() + l));
    }
}

proof fn lemma_split_text_lines(x: Seq<char>, ls: Seq<Seq<char>>)
    requires
        split_lines(x).last() == Seq::<char>::empty(),
        forall|j: int| 0 <= j < ls.len() ==> no_newline(#[trigger] ls[j]),
    ensures
        split_lines(x + text_lines(ls)) == split_lines(x).drop_last() + ls + seq![Seq::<char>::empty()],
    decreases ls.len(),
{
    lemma_split_nonempty(x);
    if ls.len() == 0 {
        assert(x + text_lines(ls) =~= x);
        assert(split_lines(x).drop_last() + ls + seq![Seq::<char>::empty()] =~= split_lines(x));
    } else {
        let d = ls.drop_last();
        let l = ls.last();
        lemma_split_text_lines(x, d);
        let y = x + text_lines(d);
        assert(x + text_lines(ls) =~= (y + l).push('\n'));
        assert(no_newline(ls[ls.len() - 1]));
        lemma_split_extend(y, l);
        let p = split_lines(y);
        assert(p.last() == Seq::<char>::empty());
        assert(((y + l).push('\n')).drop_last() =~= y + l);
        assert(Seq::<char>::empty() + l =~= l);
        assert(split_lines((y + l).push('\n')) =~= split_lines(x).drop_last() + ls + seq![Seq::<char>::empty()]);
    }
}

proof fn lemma_text_lines_append(a: Seq<Seq<char>>, b: Seq<Seq<char>>)
    ensures
        text_lines(a + b) == text_lines(a) + text_lines(b),
    decreases b.len(),
{
    if b.len() == 0 {
        assert(a + b =~= a);
        assert(text_lines(a) + text_lines(b) =~= text_lines(a));
    } else {
        lemma_text_lines_append(a, b.drop_last());
        assert((a + b).drop_last() =~= a + b.drop_last());
        assert(text_lines(a + b) =~= text_lines(a) + text_lines(b));
    }
}

/// The chars of a written timestamp: digits, `:` and `,`, starting and
/// ending with a digit.
proof fn lemma_timestamp_chars(ms: nat)
    ensures
        timestamp_text(ms).len() >= 11,
        is_digit(timestamp_text(ms)[0]),
        is_digit(timestamp_text(ms).last()),
        forall|i: int| 0 <= i < timestamp_text(ms).len() ==> (is_digit(#[trigger] timestamp_text(ms)[i])
            || timestamp_text(ms)[i] == ':' || timestamp_text(ms)[i] == ','),
{
    lemma_padded(ms / 1000 / 60 / 60, 2);
    lemma_padded(ms / 1000 / 60 % 60, 2);
    lemma_padded(ms / 1000 % 60, 2);
    lemma_padded(ms % 1000, 3);
    assert(pow10(2) == 100) by { reveal_with_fuel(pow10, 3); }
    assert(pow10(3) == 1000) by { reveal_with_fuel(pow10, 4); }
    let s = timestamp_text(ms);
    let a = padded(ms / 1000 / 60 / 60, 2);
    let d = padded(ms % 1000, 3);
    assert(s[0] == a[0]);
    assert(s[s.len() - 1] == d[2]);
}

proof fn lemma_trimmed_plain(s: Seq<char>)
    requires
        s.len() > 0,
        !is_space(s[0]),
        !is_space(s.last()),
    ensures
        trimmed(s) == s,
{
}

proof fn lemma_no_arrow(l: Seq<char>, k: int)
    requires
        forall|i: int| 0 <= i < l.len() ==> l[i] != '-',
    ensures
        arrow_from(l, k) is None,
    decreases l.len() - k,
{
    if k >= 0 && k + 3 <= l.len() {
        lemma_no_arrow(l, k + 1);
    }
}

proof fn lemma_first_arrow(l: Seq<char>, k: int, j: int)
    requires
        0 <= k <= j,
        arrow_at(l, j),
        forall|i: int| k <= i < j ==> l[i] != '-',
    ensures
        arrow_from(l, k) == Some(j),
    decreases j - k,
{
    if k < j {
        lemma_first_arrow(l, k + 1, j);
    }
}

proof fn lemma_timing_line(c: CueModel)
    requires
        c.start <= c.end <= MAX_MILLIS,
    ensures
        timing_line(timing_text(c)) == Some((Time { ms: c.start as u64 }, Time { ms: c.end as u64 })),
        !is_blank(timing_text(c)),
        no_newline(timing_text(c)),
{
    let a = timestamp_text(c.start);
    let b = timestamp_text(c.end);
    let l = timing_text(c);
    lemma_timestamp_chars(c.start);
    lemma_timestamp_chars(c.end);
    let j: int = a.len() as int + 1;
    assert(l =~= a + seq![' ', '-', '-', '>', ' '] + b);
    assert(arrow_at(l, j));
    assert forall|i: int| 0 <= i < j implies l[i] != '-' by {
        if i < a.len() {
            assert(l[i] == a[i]);
        }
    }
    lemma_first_arrow(l, 0, j);
    assert(l.subrange(0, j) =~= a.push(' '));
    assert(l.subrange(j + 3, l.len() as int) =~= seq![' '] + b);
    assert(trimmed(a.push(' ')) == trimmed(a)) by {
        assert(a.push(' ').drop_last() =~= a);
    }
    lemma_trimmed_plain(a);
    assert(trimmed(seq![' '] + b) == trimmed(b)) by {
        assert((seq![' '] + b).drop_first() =~= b);
    }
    lemma_trimmed_plain(b);
    lemma_timestamp_round_trip(Time { ms: c.start as u64 });
    lemma_timestamp_round_trip(Time { ms: c.end as u64 });
    assert(l[0] == a[0]);
    assert(l[l.len() - 1] == b[b.len() - 1]);
    lemma_trimmed_plain(l);
    assert forall|i: int| 0 <= i < l.len() implies l[i] != '\n' by {
        if i < a.len() {
            assert(l[i] == a[i]);
        } else if i >= j + 4 {
            assert(l[i] == b[i - j - 4]);
        }
    }
}

proof fn lemma_index_line(k: nat)
    ensures
        !is_blank(padded(k, 1)),
        no_newline(padded(k, 1)),
        arrow_from(padded(k, 1), 0) is None,
{
    lemma_padded(k, 1);
    let p = padded(k, 1);
    assert(is_digit(p[0]) && is_digit(p[p.len() - 1]));
    lemma_trimmed_plain(p);
    lemma_no_arrow(p, 0);
}

proof fn lemma_block_cue(k: nat, c: CueModel)
    requires
        plain_cue(c),
    ensures
        block_cue(cue_block(k, c)) == Some(c),
{
    let b = cue_block(k, c);
    lemma_index_line(k);
    lemma_timing_line(c);
    assert(b[0] == padded(k, 1));
    assert(b[1] == timing_text(c));
    let ls = Seq::new((b.len() - 2) as nat, |j: int| trimmed(b[1 + 1 + j]));
    assert forall|j: int| 0 <= j < c.lines.len() implies ls[j] == c.lines[j] by {
        assert(b[2 + j] == c.lines[j]);
        assert(plain_line(c.lines[j]));
    }
    assert(ls =~= c.lines);
}

proof fn lemma_block_lines(k: nat, c: CueModel)
    requires
        plain_cue(c),
    ensures
        forall|j: int| 0 <= j < cue_block(k, c).len() ==> !is_blank(#[trigger] cue_block(k, c)[j]) && no_newline(
            cue_block(k, c)[j],
        ),
{
    let b = cue_block(k, c);
    lemma_index_line(k);
    lemma_timing_line(c);
    assert(b[0] == padded(k, 1));
    assert(b[1] == timing_text(c));
    assert forall|j: int| 0 <= j < b.len() implies !is_blank(#[trigger] b[j]) && no_newline(b[j]) by {
        if j >= 2 {
            assert(b[j] == c.lines[j - 2]);
            assert(plain_line(c.lines[j - 2]));
        }
    }
}

proof fn lemma_head_lines(k: nat, c: CueModel)
    ensures
        text_lines(seq![padded(k, 1), timing_text(c)]) == block_head(k, c.start, c.end),
{
    let two = seq![padded(k, 1), timing_text(c)];
    let one = seq![padded(k, 1)];
    assert(two.drop_last() =~= one);
    assert(one.drop_last() =~= Seq::<Seq<char>>::empty());
    assert(text_lines(one) =~= padded(k, 1).push('\n')) by {
        assert(text_lines(Seq::<Seq<char>>::empty()) == Seq::<char>::empty());
    }
    assert(text_lines(two) == text_lines(one) + timing_text(c) + seq!['\n']);
    assert(text_lines(two) =~= block_head(k, c.start, c.end));
}

proof fn lemma_split_doc(cs: Seq<CueModel>)
    requires
        all_plain(cs),
    ensures
        split_lines(file_text(cs)) == doc_lines(cs).push(Seq::<char>::empty()),
    decreases cs.len(),
{
    if cs.len() == 0 {
        assert(split_lines(file_text(cs)) =~= doc_lines(cs).push(Seq::<char>::empty()));
    } else {
        let d = cs.drop_last();
        let c = cs.last();
        assert(all_plain(d));
        assert(plain_cue(cs[cs.len() - 1]));
        lemma_split_doc(d);
        let x = file_text(d);
        let cb = cue_block(cs.len(), c);
        lemma_block_lines(cs.len(), c);
        lemma_head_lines(cs.len(), c);
        lemma_text_lines_append(seq![padded(cs.len(), 1), timing_text(c)], c.lines);
        assert(file_text(cs) =~= (x + text_lines(cb)).push('\n'));
        lemma_split_nonempty(x);
        assert(split_lines(x).last() == Seq::<char>::empty()) by {
            assert(split_lines(x) == doc_lines(d).push(Seq::<char>::empty()));
        }
        lemma_split_text_lines(x, cb);
        assert(((x + text_lines(cb)).push('\n')).drop_last() =~= x + text_lines(cb));
        assert(split_lines(x).drop_last() =~= doc_lines(d));
        assert(split_lines(file_text(cs)) =~= doc_lines(cs).push(Seq::<char>::empty()));
    }
}

proof fn lemma_group_run(x: Seq<Seq<char>>, bs: Seq<Seq<Seq<char>>>, l: Seq<Seq<char>>)
    requires
        group(x) == (bs, Seq::<Seq<char>>::empty()),
        forall|j: int| 0 <= j < l.len() ==> !is_blank(#[trigger] l[j]),
    ensures
        group(x + l) == (bs, l),
    decreases l.len(),
{
    if l.len() == 0 {
        assert(x + l =~= x);
    } else {
        let d = l.drop_last();
        lemma_group_run(x, bs, d);
        assert((x + l).drop_last() =~= x + d);
        assert(!is_blank(l[l.len() - 1]));
        assert(d.push(l.last()) =~= l);
    }
}

proof fn lemma_group_doc(cs: Seq<CueModel>)
    requires
        all_plain(cs),
    ensures
        group(doc_lines(cs)) == (cue_blocks(cs), Seq::<Seq<char>>::empty()),
    decreases cs.len(),
{
    if cs.len() == 0 {
        assert(cue_blocks(cs) =~= Seq::<Seq<Seq<char>>>::empty());
        assert(cs =~= Seq::<CueModel>::empty());
    } else {
        let d = cs.drop_last();
        assert(all_plain(d));
        assert(plain_cue(cs[cs.len() - 1]));
        lemma_group_doc(d);
        let cb = cue_block(cs.len(), cs.last());
        lemma_block_lines(cs.len(), cs.last());
        lemma_group_run(doc_lines(d), cue_blocks(d), cb);
        let y = doc_lines(d) + cb;
        assert(doc_lines(cs) =~= y.push(Seq::<char>::empty()));
        assert(y.push(Seq::<char>::empty()).drop_last() =~= y);
        assert(is_blank(Seq::<char>::empty()));
        assert(cue_blocks(d).push(cb) =~= cue_blocks(cs));
    }
}

proof fn lemma_all_cues_blocks(cs: Seq<CueModel>)
    requires
        all_plain(cs),
    ensures
        all_cues(cue_blocks(cs)) == Ok::<Seq<CueModel>, nat>(cs),
    decreases cs.len(),
{
    if cs.len() == 0 {
        assert(cue_blocks(cs) =~= Seq::<Seq<Seq<char>>>::empty());
        assert(cs =~= Seq::<CueModel>::empty());
    } else {
        let d = cs.drop_last();
        assert(all_plain(d));
        assert(plain_cue(cs[cs.len() - 1]));
        lemma_all_cues_blocks(d);
        assert(cue_blocks(cs).drop_last() =~= cue_blocks(d));
        lemma_block_cue(cs.len(), cs.last());
        assert(cue_blocks(cs).last() == cue_block(cs.len(), cs.last()));
        assert(block_cue(cue_blocks(cs).last()) == Some(cs.last()));
        assert(d.push(cs.last()) =~= cs);
    }
}

proof fn lemma_sort_sorted_identity(s: Seq<CueModel>)
    requires
        sorted_by_start(s),
    ensures
        sort_by_start(s) == s,
    decreases s.len(),
{
    if s.len() > 0 {
        let d = s.drop_last();
        assert(sorted_by_start(d));
        lemma_sort_sorted_identity(d);
        if d.len() > 0 {
            assert(d.last().start <= s.last().start);
        }
        assert(d.push(s.last()) =~= s);
    }
}

/// Writing cues that are ordered by start time and made of plain lines, then
/// parsing the text, gives the same cues back.
pub proof fn lemma_write_then_parse(cs: Seq<CueModel>)
    requires
        sorted_by_start(cs),
        all_plain(cs),
    ensures
        parse_text(file_text(cs)) == Ok::<Seq<CueModel>, crate::error::SubError>(cs),
{
    lemma_split_doc(cs);
    lemma_group_doc(cs);
    let ls = doc_lines(cs).push(Seq::<char>::empty());
    assert(ls.drop_last() =~= doc_lines(cs));
    assert(is_blank(Seq::<char>::empty()));
    assert(blocks(ls) == cue_blocks(cs));
    lemma_all_cues_blocks(cs);
    if cs.len() > 0 {
        let d = cs.drop_last();
        assert(all_plain(d));
        lemma_all_cues_blocks(d);
        assert(cue_blocks(cs).drop_last() =~= cue_blocks(d));
        assert(plain_cue(cs[cs.len() - 1]));
        lemma_block_cue(cs.len(), cs.last());
        assert(d.push(cs.last()) =~= cs);
    }
    lemma_sort_sorted_identity(cs);
}

/// The lines of a block read from text: non-blank, each a single line.
pub open spec fn good_block(b: Seq<Seq<char>>) -> bool {
    forall|j: int| 0 <= j < b.len() ==> !is_blank(#[trigger] b[j]) && no_newline(b[j])
}

proof fn lemma_split_no_newline(s: Seq<char>)
    ensures
        forall|j: int| 0 <= j < split_lines(s).len() ==> no_newline(#[trigger] split_lines(s)[j]),
    decreases s.len(),
{
    if s.len() > 0 {
        lemma_split_no_newline(s.drop_last());
        lemma_split_nonempty(s.drop_last());
        let p = split_lines(s.drop_last());
        let r = split_lines(s);
        if s.last() != '\n' {
            assert forall|j: int| 0 <= j < r.len() implies no_newline(#[trigger] r[j]) by {
                if j == p.len() - 1 {
                    assert(no_newline(p[j]));
                    assert(r[j] == p[j].push(s.last()));
                } else {
                    assert(r[j] == p[j]);
                }
            }
        } else {
            assert forall|j: int| 0 <= j < r.len() implies no_newline(#[trigger] r[j]) by {
                if j < p.len() {
                    assert(r[j] == p[j]);
                }
            }
        }
    }
}

proof fn lemma_group_good(ls: Seq<Seq<char>>)
    requires
        forall|j: int| 0 <= j < ls.len() ==> no_newline(#[trigger] ls[j]),
    ensures
        forall|i: int| 0 <= i < group(ls).0.len() ==> good_block(#[trigger] group(ls).0[i]),
        good_block(group(ls).1),
    decreases ls.len(),
{
    if ls.len() > 0 {
        let d = ls.drop_last();
        assert forall|j: int| 0 <= j < d.len() implies no_newline(#[trigger] d[j]) by {
            assert(d[j] == ls[j]);
        }
        lemma_group_good(d);
        assert(no_newline(ls[ls.len() - 1]));
        let (bs, cur) = group(d);
        if !is_blank(ls.last()) {
            assert forall|j: int| 0 <= j < cur.push(ls.last()).len() implies !is_blank(#[trigger] cur.push(ls.last())[j])
                && no_newline(cur.push(ls.last())[j]) by {
                if j < cur.len() {
                    assert(cur.push(ls.last())[j] == cur[j]);
                }
            }
        }
    }
}

proof fn lemma_blocks_good(ls: Seq<Seq<char>>)
    requires
        forall|j: int| 0 <= j < ls.len() ==> no_newline(#[trigger] ls[j]),
    ensures
        forall|i: int| 0 <= i < blocks(ls).len() ==> good_block(#[trigger] blocks(ls)[i]),
{
    lemma_group_good(ls);
}

proof fn lemma_trimmed_props(l: Seq<char>)
    ensures
        no_newline(l) ==> no_newline(trimmed(l)),
        trimmed(l).len() == 0 || (!is_space(trimmed(l)[0]) && !is_space(trimmed(l).last())),
    decreases l.len(),
{
    if l.len() > 0 && is_space(l[0]) {
        let d = l.drop_first();
        lemma_trimmed_props(d);
        if no_newline(l) {
            assert forall|i: int| 0 <= i < d.len() implies d[i] != '\n' by {
                assert(d[i] == l[i + 1]);
            }
        }
    } else if l.len() > 0 && is_space(l.last()) {
        let d = l.drop_last();
        lemma_trimmed_props(d);
        if no_newline(l) {
            assert forall|i: int| 0 <= i < d.len() implies d[i] != '\n' by {
                assert(d[i] == l[i]);
            }
        }
    }
}

proof fn lemma_trimmed_line(l: Seq<char>)
    requires
        !is_blank(l),
        no_newline(l),
    ensures
        plain_line(trimmed(l)),
{
    lemma_trimmed_props(l);
    lemma_trimmed_plain(trimmed(l));
}

proof fn lemma_block_plain(b: Seq<Seq<char>>)
    requires
        good_block(b),
        block_cue(b) is Some,
    ensures
        plain_cue(block_cue(b)->Some_0),
{
    let c = block_cue(b)->Some_0;
    let ti = if arrow_from(b[0], 0) is Some { 0int } else { 1int };
    assert forall|j: int| 0 <= j < c.lines.len() implies plain_line(#[trigger] c.lines[j]) by {
        assert(c.lines[j] == trimmed(b[ti + 1 + j]));
        lemma_trimmed_line(b[ti + 1 + j]);
    }
}

proof fn lemma_all_cues_plain(bs: Seq<Seq<Seq<char>>>)
    requires
        forall|i: int| 0 <= i < bs.len() ==> good_block(#[trigger] bs[i]),
    ensures
        all_cues(bs) is Ok ==> all_plain(all_cues(bs)->Ok_0),
    decreases bs.len(),
{
    if bs.len() > 0 {
        let d = bs.drop_last();
        assert forall|i: int| 0 <= i < d.len() implies good_block(#[trigger] d[i]) by {
            assert(d[i] == bs[i]);
        }
        lemma_all_cues_plain(d);
        assert(good_block(bs[bs.len() - 1]));
        if block_cue(bs.last()) is Some {
            lemma_block_plain(bs.last());
        }
    }
}

proof fn lemma_insert_plain(s: Seq<CueModel>, c: CueModel)
    requires
        all_plain(s),
        plain_cue(c),
    ensures
        all_plain(insert_by_start(s, c)),
    decreases s.len(),
{
    if !(s.len() == 0 || s.last().start <= c.start) {
        let d = s.drop_last();
        assert(all_plain(d));
        lemma_insert_plain(d, c);
        assert(plain_cue(s[s.len() - 1]));
    }
}

proof fn lemma_sort_plain(s: Seq<CueModel>)
    requires
        all_plain(s),
    ensures
        all_plain(sort_by_start(s)),
    decreases s.len(),
{
    if s.len() > 0 {
        assert(all_plain(s.drop_last()));
        lemma_sort_plain(s.drop_last());
        assert(plain_cue(s[s.len() - 1]));
        lemma_insert_plain(sort_by_start(s.drop_last()), s.last());
    }
}

/// The cues that parsing yields are ordered and made of plain lines.
proof fn lemma_parsed_plain(s: Seq<char>)
    requires
        parse_text(s) is Ok,
    ensures
        all_plain(parse_text(s)->Ok_0),
        sorted_by_start(parse_text(s)->Ok_0),
{
    crate::srt::lemma_parse_sorted(s);
    let ls = split_lines(s);
    lemma_split_no_newline(s);
    lemma_blocks_good(ls);
    let bs = blocks(ls);
    if bs.len() > 0 {
        let d = bs.drop_last();
        assert forall|i: int| 0 <= i < d.len() implies good_block(#[trigger] d[i]) by {
            assert(d[i] == bs[i]);
        }
        lemma_all_cues_plain(d);
        assert(good_block(bs[bs.len() - 1]));
        if block_cue(bs.last()) is Some {
            lemma_block_plain(bs.last());
        }
        let p = all_cues(d)->Ok_0;
        if all_cues(d) is Ok && block_cue(bs.last()) is Some {
            assert(all_plain(p.push(block_cue(bs.last())->Some_0)));
        }
    } else {
        assert(block_cues(bs) == Ok::<Seq<CueModel>, crate::error::SubError>(seq![]));
    }
    lemma_sort_plain(block_cues(bs)->Ok_0);
}

/// Parsing the text written for a parsed file gives the same cues back.
pub proof fn lemma_round_trip(s: Seq<char>)
    requires
        parse_text(s) is Ok,
    ensures
        parse_text(file_text(parse_text(s)->Ok_0)) == parse_text(s),
{
    lemma_parsed_plain(s);
    lemma_write_then_parse(parse_text(s)->Ok_0);
}


/// A non-empty cleaned line is plain.
proof fn lemma_clean_line_plain(l: Seq<char>)
    ensures
        clean_line(l).len() > 0 ==> plain_line(clean_line(l)),
{
    let t = strip_markup(l);
    lemma_squeeze_props(t);
    let q = squeeze(t);
    let c = clean_line(l);
    if c.len() > 0 {
        assert(forall|i: int| 0 <= i < c.len() ==> c[i] == q[i]);
        assert(!is_space(c[0]));
        if q.last() == ' ' {
            assert(q[q.len() - 2] != ' ');
            assert(c.last() == q[q.len() - 2]);
        }
        assert(!is_space(c[c.len() - 1]));
        lemma_trimmed_plain(c);
        assert forall|i: int| 0 <= i < c.len() implies c[i] != '\n' by {
            if c[i] == '\n' {
                assert(is_space(q[i]));
            }
        }
    }
}

proof fn lemma_clean_lines_plain(ls: Seq<Seq<char>>)
    ensures
        forall|j: int| 0 <= j < clean_lines(ls).len() ==> plain_line(#[trigger] clean_lines(ls)[j]),
    decreases ls.len(),
{
    if ls.len() > 0 {
        lemma_clean_lines_plain(ls.drop_last());
        lemma_clean_line_plain(ls.last());
        let p = clean_lines(ls.drop_last());
        let r = clean_lines(ls);
        assert forall|j: int| 0 <= j < r.len() implies plain_line(#[trigger] r[j]) by {
            if j < p.len() {
                assert(r[j] == p[j]);
            }
        }
    }
}

proof fn lemma_clean_cues_plain(s: Seq<CueModel>)
    requires
        forall|i: int| 0 <= i < s.len() ==> (#[trigger] s[i]).start <= s[i].end <= MAX_MILLIS,
    ensures
        all_plain(clean_cues(s)),
    decreases s.len(),
{
    if s.len() > 0 {
        let d = s.drop_last();
        assert(forall|i: int| 0 <= i < d.len() ==> d[i] == s[i]);
        lemma_clean_cues_plain(d);
        lemma_clean_lines_plain(s.last().lines);
        assert(s[s.len() - 1].start <= s[s.len() - 1].end);
        let p = clean_cues(d);
        let r = clean_cues(s);
        assert forall|i: int| 0 <= i < r.len() implies plain_cue(#[trigger] r[i]) by {
            if i < p.len() {
                assert(r[i] == p[i]);
            }
        }
    }
}

/// The text written for a cleaned file parses back to the same cues, and
/// cleaning those cues again changes nothing.
pub proof fn lemma_cleaned_text_stable(s: Seq<char>)
    requires
        parse_text(s) is Ok,
    ensures
        parse_text(file_text(clean_cues(parse_text(s)->Ok_0))) == Ok::<Seq<CueModel>, crate::error::SubError>(
            clean_cues(parse_text(s)->Ok_0),
        ),
        clean_cues(clean_cues(parse_text(s)->Ok_0)) == clean_cues(parse_text(s)->Ok_0),
{
    let cs = parse_text(s)->Ok_0;
    lemma_parsed_plain(s);
    assert forall|i: int| 0 <= i < cs.len() implies (#[trigger] cs[i]).start <= cs[i].end <= MAX_MILLIS by {
        assert(plain_cue(cs[i]));
    }
    lemma_clean_cues_plain(cs);
    lemma_clean_sorted(cs);
    lemma_write_then_parse(clean_cues(cs));
    lemma_clean_idempotent(cs);
}


proof fn lemma_block_cues_complete(bs: Seq<Seq<Seq<char>>>)
    requires
        all_cues(bs) is Ok,
    ensures
        block_cues(bs) == Ok::<Seq<CueModel>, crate::error::SubError>(all_cues(bs)->Ok_0),
{
    if bs.len() == 0 {
        assert(all_cues(bs)->Ok_0 =~= Seq::<CueModel>::empty());
    }
}

/// A final block that holds only an index line (a file cut short after it)
/// changes nothing: the text parses as it does without that tail.
pub proof fn lemma_truncated_tail(s: Seq<char>, k: Seq<char>)
    requires
        s.len() > 0,
        s.last() == '\n',
        all_cues(blocks(split_lines(s))) is Ok,
        !is_blank(k),
        no_newline(k),
        arrow_from(k, 0) is None,
    ensures
        parse_text(s + seq!['\n'] + k + seq!['\n']) == parse_text(s),
{
    let e = Seq::<char>::empty();
    let ls = split_lines(s);
    assert(s.drop_last().push('\n') =~= s);
    assert(ls.last() == e);
    lemma_split_nonempty(s);
    let two = seq![e, k];
    assert(text_lines(two) =~= seq!['\n'] + k + seq!['\n']) by {
        assert(two.drop_last() =~= seq![e]);
        assert(seq![e].drop_last() =~= Seq::<Seq<char>>::empty());
        assert(text_lines(Seq::<Seq<char>>::empty()) == e);
        assert(text_lines(seq![e]) =~= seq!['\n']);
        assert(text_lines(two) == text_lines(seq![e]) + k + seq!['\n']);
    }
    assert(s + text_lines(two) =~= s + seq!['\n'] + k + seq!['\n']);
    lemma_split_text_lines(s, two);
    let ls2 = split_lines(s + seq!['\n'] + k + seq!['\n']);
    assert(ls2 =~= ls + seq![k, e]);
    let (bs, cur) = group(ls);
    assert(cur == Seq::<Seq<char>>::empty()) by {
        assert(is_blank(e));
        let (b0, c0) = group(ls.drop_last());
        assert(ls.last() == e);
    }
    assert(blocks(ls) == bs);
    assert((ls + seq![k]).drop_last() =~= ls);
    assert(group(ls + seq![k]) == (bs, seq![k])) by {
        assert(Seq::<Seq<char>>::empty().push(k) =~= seq![k]);
    }
    assert((ls + seq![k, e]).drop_last() =~= ls + seq![k]);
    assert(is_blank(e));
    assert(group(ls2) == (bs.push(seq![k]), Seq::<Seq<char>>::empty()));
    assert(blocks(ls2) == bs.push(seq![k]));
    let bs2 = bs.push(seq![k]);
    assert(bs2.drop_last() =~= bs);
    assert(block_cue(seq![k]) is None);
    assert(!bad_timing(seq![k]));
    lemma_block_cues_complete(bs);
}

} // verus!
