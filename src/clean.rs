//! Removing what does not look like dialog: markup, empty lines, credits.
use vstd::prelude::*;

use crate::cue::{lines_view, sorted_by_start, Cue, CueModel, SubtitleFile};
use crate::text::{alphabetic, chars_of, is_alphabetic, is_space, space, string_of};

verus! {

/// A char that opens an inline tag: `<i>`, `{\an8}`.
pub open spec fn opens_tag(c: char) -> bool {
    c == '<' || c == '{'
}

/// The char that closes a tag opened by `c`.
pub open spec fn closer(c: char) -> char {
    if c == '<' { '>' } else { '}' }
}

/// The text kept so far; inside a tag, the char that will close it and the
/// text read since the tag opened.
pub open spec fn strip_state(s: Seq<char>) -> (Seq<char>, Option<char>, Seq<char>)
    decreases s.len(),
{
    if s.len() == 0 {
        (seq![], None, seq![])
    } else {
        let (kept, inside, pending) = strip_state(s.drop_last());
        let c = s.last();
        match inside {
            Some(close) => if c == close {
                (kept, None, seq![])
            } else {
                (kept, inside, pending.push(c))
            },
            None => if opens_tag(c) {
                (kept, Some(closer(c)), seq![c])
            } else {
                (kept.push(c), None, seq![])
            },
        }
    }
}

/// `s` without its tags; a tag that is never closed is kept as text.
pub open spec fn strip_markup(s: Seq<char>) -> Seq<char> {
    strip_state(s).0 + strip_state(s).2
}

/// `s` with each run of whitespace turned into one space and leading whitespace dropped.
pub open spec fn squeeze(s: Seq<char>) -> Seq<char>
    decreases s.len(),
{
    if s.len() == 0 {
        seq![]
    } else {
        let p = squeeze(s.drop_last());
        if is_space(s.last()) {
            if p.len() == 0 || p.last() == ' ' { p } else { p.push(' ') }
        } else {
            p.push(s.last())
        }
    }
}

/// `s` with whitespace runs collapsed to single spaces and both ends trimmed.
pub open spec fn collapse(s: Seq<char>) -> Seq<char> {
    let q = squeeze(s);
    if q.len() > 0 && q.last() == ' ' { q.drop_last() } else { q }
}

/// A line after markup stripping and whitespace collapsing.
pub open spec fn clean_line(s: Seq<char>) -> Seq<char> {
    collapse(strip_markup(s))
}

/// The cleaned lines of `ls`, leaving out those that become empty.
pub open spec fn clean_lines(ls: Seq<Seq<char>>) -> Seq<Seq<char>>
    decreases ls.len(),
{
    if ls.len() == 0 {
        seq![]
    } else {
        let p = clean_lines(ls.drop_last());
        let l = clean_line(ls.last());
        if l.len() == 0 { p } else { p.push(l) }
    }
}

pub open spec fn has_alpha(s: Seq<char>) -> bool {
    exists|i: int| 0 <= i < s.len() && alphabetic(#[trigger] s[i])
}

/// The openers of credit lines, in lower case: a word such as `subtitles`
/// followed by ` by`.
pub open spec fn credit_opener(k: int) -> Seq<char> {
    if k == 0 {
        seq!['s', 'u', 'b', 't', 'i', 't', 'l', 'e', 's', ' ', 'b', 'y']
    } else if k == 1 {
        seq!['s', 'u', 'b', 't', 'i', 't', 'l', 'e', 'd', ' ', 'b', 'y']
    } else if k == 2 {
        seq!['s', 'u', 'b', 't', 'i', 't', 'l', 'e', ' ', 'b', 'y']
    } else if k == 3 {
        seq!['s', 'u', 'b', 's', ' ', 'b', 'y']
    } else if k == 4 {
        seq!['s', 'y', 'n', 'c', 'e', 'd', ' ', 'b', 'y']
    } else if k == 5 {
        seq!['s', 'y', 'n', 'c', ' ', 'b', 'y']
    } else if k == 6 {
        seq!['c', 'a', 'p', 't', 'i', 'o', 'n', 's', ' ', 'b', 'y']
    } else if k == 7 {
        seq!['c', 'a', 'p', 't', 'i', 'o', 'n', 'e', 'd', ' ', 'b', 'y']
    } else if k == 8 {
        seq!['t', 'r', 'a', 'n', 's', 'l', 'a', 't', 'e', 'd', ' ', 'b', 'y']
    } else if k == 9 {
        seq!['t', 'r', 'a', 'n', 's', 'l', 'a', 't', 'i', 'o', 'n', ' ', 'b', 'y']
    } else if k == 10 {
        seq!['r', 'i', 'p', 'p', 'e', 'd', ' ', 'b', 'y']
    } else if k == 11 {
        seq!['e', 'n', 'c', 'o', 'd', 'e', 'd', ' ', 'b', 'y']
    } else if k == 12 {
        seq!['c', 'o', 'r', 'r', 'e', 'c', 't', 'e', 'd', ' ', 'b', 'y']
    } else if k == 13 {
        seq!['r', 'e', 's', 'y', 'n', 'c', 'e', 'd', ' ', 'b', 'y']
    } else {
        seq!['r', 'e', 's', 'y', 'n', 'c', ' ', 'b', 'y']
    }
}

/// The number of credit openers.
pub const CREDIT_OPENERS: usize = 15;

/// `c` is `p`, or its upper-case form when `p` is an ASCII lower-case letter.
pub open spec fn eq_ignoring_case(c: char, p: char) -> bool {
    c == p || ('a' <= p && p <= 'z' && c as u32 + 32 == p as u32)
}

/// `l` opens with the words `p`, ignoring ASCII case.
pub open spec fn opens_with(l: Seq<char>, p: Seq<char>) -> bool {
    &&& p.len() <= l.len()
    &&& forall|i: int| 0 <= i < p.len() ==> eq_ignoring_case(#[trigger] l[i], p[i])
    &&& (l.len() == p.len() || l[p.len() as int] == ' ')
}

/// A credits line: "Subtitles by ...", "Synced by ...", and the like.
pub open spec fn is_credit(l: Seq<char>) -> bool {
    exists|k: int| 0 <= k < CREDIT_OPENERS && opens_with(l, #[trigger] credit_opener(k))
}

fn opens_with_exec(l: &[char], p: &Vec<char>) -> (r: bool)
    ensures
        r == opens_with(l@, p@),
{
    if p.len() > l.len() {
        return false;
    }
    let mut i: usize = 0;
    while i < p.len()
        invariant
            i <= p@.len() <= l@.len(),
            forall|j: int| 0 <= j < i ==> eq_ignoring_case(#[trigger] l@[j], p@[j]),
        decreases p@.len() - i,
    {
        let c = l[i];
        let q = p[i];
        let same = c == q || ('a' <= q && q <= 'z' && c as u32 == q as u32 - 32);
        if !same {
            return false;
        }
        i = i + 1;
    }
    p.len() == l.len() || l[p.len()] == ' '
}

/// Whether `l` is a credits line.
fn credit_line(l: &[char]) -> (r: bool)
    ensures
        r == is_credit(l@),
{
    let mut k: usize = 0;
    while k < CREDIT_OPENERS
        invariant
            k <= CREDIT_OPENERS,
            forall|j: int| 0 <= j < k ==> !opens_with(l@, #[trigger] credit_opener(j)),
        decreases CREDIT_OPENERS - k,
    {
        let p = credit_opener_chars(k);
        if opens_with_exec(l, &p) {
            return true;
        }
        k = k + 1;
    }
    false
}

/// The credit opener numbered `k`.
fn credit_opener_chars(k: usize) -> (r: Vec<char>)
    requires
        k < CREDIT_OPENERS,
    ensures
        r@ == credit_opener(k as int),
{
    let mut v: Vec<char> = Vec::new();
    if k == 0 {
        v.push('s');
        v.push('u');
        v.push('b');
        v.push('t');
        v.push('i');
        v.push('t');
        v.push('l');
        v.push('e');
        v.push('s');
        v.push(' ');
        v.push('b');
        v.push('y');
    } else if k == 1 {
        v.push('s');
        v.push('u');
        v.push('b');
        v.push('t');
        v.push('i');
        v.push('t');
        v.push('l');
        v.push('e');
        v.push('d');
        v.push(' ');
        v.push('b');
        v.push('y');
    } else if k == 2 {
        v.push('s');
        v.push('u');
        v.push('b');
        v.push('t');
        v.push('i');
        v.push('t');
        v.push('l');
        v.push('e');
        v.push(' ');
        v.push('b');
        v.push('y');
    } else if k == 3 {
        v.push('s');
        v.push('u');
        v.push('b');
        v.push('s');
        v.push(' ');
        v.push('b');
        v.push('y');
    } else if k == 4 {
        v.push('s');
        v.push('y');
        v.push('n');
        v.push('c');
        v.push('e');
        v.push('d');
        v.push(' ');
        v.push('b');
        v.push('y');
    } else if k == 5 {
        v.push('s');
        v.push('y');
        v.push('n');
        v.push('c');
        v.push(' ');
        v.push('b');
        v.push('y');
    } else if k == 6 {
        v.push('c');
        v.push('a');
        v.push('p');
        v.push('t');
        v.push('i');
        v.push('o');
        v.push('n');
        v.push('s');
        v.push(' ');
        v.push('b');
        v.push('y');
    } else if k == 7 {
        v.push('c');
        v.push('a');
        v.push('p');
        v.push('t');
        v.push('i');
        v.push('o');
        v.push('n');
        v.push('e');
        v.push('d');
        v.push(' ');
        v.push('b');
        v.push('y');
    } else if k == 8 {
        v.push('t');
        v.push('r');
        v.push('a');
        v.push('n');
        v.push('s');
        v.push('l');
        v.push('a');
        v.push('t');
        v.push('e');
        v.push('d');
        v.push(' ');
        v.push('b');
        v.push('y');
    } else if k == 9 {
        v.push('t');
        v.push('r');
        v.push('a');
        v.push('n');
        v.push('s');
        v.push('l');
        v.push('a');
        v.push('t');
        v.push('i');
        v.push('o');
        v.push('n');
        v.push(' ');
        v.push('b');
        v.push('y');
    } else if k == 10 {
        v.push('r');
        v.push('i');
        v.push('p');
        v.push('p');
        v.push('e');
        v.push('d');
        v.push(' ');
        v.push('b');
        v.push('y');
    } else if k == 11 {
        v.push('e');
        v.push('n');
        v.push('c');
        v.push('o');
        v.push('d');
        v.push('e');
        v.push('d');
        v.push(' ');
        v.push('b');
        v.push('y');
    } else if k == 12 {
        v.push('c');
        v.push('o');
        v.push('r');
        v.push('r');
        v.push('e');
        v.push('c');
        v.push('t');
        v.push('e');
        v.push('d');
        v.push(' ');
        v.push('b');
        v.push('y');
    } else if k == 13 {
        v.push('r');
        v.push('e');
        v.push('s');
        v.push('y');
        v.push('n');
        v.push('c');
        v.push('e');
        v.push('d');
        v.push(' ');
        v.push('b');
        v.push('y');
    } else {
        v.push('r');
        v.push('e');
        v.push('s');
        v.push('y');
        v.push('n');
        v.push('c');
        v.push(' ');
        v.push('b');
        v.push('y');
    }
    assert(v@ =~= credit_opener(k as int));
    v
}

/// The cleaned cue, or `None` when the cue is dropped: no line is left, or
/// its only line holds no alphabetic char (symbols, numbers, tags) or is a
/// credits line.
pub open spec fn clean_cue(c: CueModel) -> Option<CueModel> {
    let ls = clean_lines(c.lines);
    if ls.len() == 0 || (ls.len() == 1 && (!has_alpha(ls[0]) || is_credit(ls[0]))) {
        None
    } else {
        Some(CueModel { start: c.start, end: c.end, lines: ls })
    }
}

/// The cleaned cues of `s`, in order, without those dropped.
pub open spec fn clean_cues(s: Seq<CueModel>) -> Seq<CueModel>
    decreases s.len(),
{
    if s.len() == 0 {
        seq![]
    } else {
        let p = clean_cues(s.drop_last());
        match clean_cue(s.last()) {
            Some(c) => p.push(c),
            None => p,
        }
    }
}

pub open spec fn no_tag_open(s: Seq<char>) -> bool {
    forall|i: int| 0 <= i < s.len() ==> !opens_tag(#[trigger] s[i])
}

/// No leading whitespace, only plain spaces, never two in a row.
pub open spec fn squeezed(s: Seq<char>) -> bool {
    &&& (s.len() > 0 ==> !is_space(s[0]))
    &&& forall|i: int| 0 <= i < s.len() && is_space(#[trigger] s[i]) ==> s[i] == ' '
    &&& forall|i: int| 0 <= i < s.len() - 1 && #[trigger] s[i] == ' ' ==> s[i + 1] != ' '
}

/// Where the first tag opener of `c` stands (`c.len()` when there is none).
pub open spec fn first_open(c: Seq<char>) -> int
    decreases c.len(),
{
    if c.len() == 0 {
        0
    } else {
        let f = first_open(c.drop_last());
        if f < c.len() - 1 {
            f
        } else if opens_tag(c.last()) {
            c.len() - 1
        } else {
            c.len() as int
        }
    }
}

/// After the first tag opener of `c`, its closer never comes.
pub open spec fn open_tail(c: Seq<char>) -> bool {
    first_open(c) < c.len() ==> forall|j: int| first_open(c) < j < c.len() ==> #[trigger] c[j] != closer(
        c[first_open(c)],
    )
}

proof fn lemma_first_open(c: Seq<char>)
    ensures
        0 <= first_open(c) <= c.len(),
        forall|i: int| 0 <= i < first_open(c) ==> !opens_tag(#[trigger] c[i]),
        first_open(c) < c.len() ==> opens_tag(c[first_open(c)]),
    decreases c.len(),
{
    if c.len() > 0 {
        let d = c.drop_last();
        lemma_first_open(d);
        assert forall|i: int| 0 <= i < first_open(c) implies !opens_tag(#[trigger] c[i]) by {
            if i < d.len() {
                assert(c[i] == d[i]);
            }
        }
    }
}

proof fn lemma_open_tail_prefix(c: Seq<char>)
    requires
        open_tail(c),
        c.len() > 0,
    ensures
        open_tail(c.drop_last()),
        first_open(c.drop_last()) < c.len() - 1 ==> first_open(c.drop_last()) == first_open(c),
        first_open(c.drop_last()) == c.len() - 1 ==> first_open(c) >= c.len() - 1,
{
    let d = c.drop_last();
    lemma_first_open(d);
    if first_open(d) < d.len() {
        assert forall|j: int| first_open(d) < j < d.len() implies #[trigger] d[j] != closer(d[first_open(d)]) by {
            assert(d[j] == c[j]);
        }
    }
}

proof fn lemma_strip_prefix(c: Seq<char>, m: int)
    requires
        open_tail(c),
        0 <= m <= c.len(),
    ensures
        strip_state(c.subrange(0, m)) == if m <= first_open(c) {
            (c.subrange(0, m), None::<char>, Seq::<char>::empty())
        } else {
            (c.subrange(0, first_open(c)), Some(closer(c[first_open(c)])), c.subrange(first_open(c), m))
        },
    decreases m,
{
    lemma_first_open(c);
    let f = first_open(c);
    if m == 0 {
        assert(c.subrange(0, 0) =~= Seq::<char>::empty());
    } else {
        lemma_strip_prefix(c, m - 1);
        let p = c.subrange(0, m);
        assert(p.drop_last() =~= c.subrange(0, m - 1));
        assert(p.last() == c[m - 1]);
        if m - 1 < f {
            assert(!opens_tag(c[m - 1]));
            assert(c.subrange(0, m - 1).push(c[m - 1]) =~= p);
        } else if m - 1 == f {
            assert(c.subrange(f, m) =~= seq![c[f]]);
        } else {
            assert(c[m - 1] != closer(c[f]));
            assert(c.subrange(f, m - 1).push(c[m - 1]) =~= c.subrange(f, m));
        }
    }
}

proof fn lemma_strip_identity(c: Seq<char>)
    requires
        open_tail(c),
    ensures
        strip_markup(c) == c,
{
    lemma_first_open(c);
    lemma_strip_prefix(c, c.len() as int);
    assert(c.subrange(0, c.len() as int) =~= c);
    if c.len() <= first_open(c) {
        assert(c + Seq::<char>::empty() =~= c);
    } else {
        assert(c.subrange(0, first_open(c)) + c.subrange(first_open(c), c.len() as int) =~= c);
    }
}

proof fn lemma_strip_state_shape(s: Seq<char>)
    ensures
        no_tag_open(strip_state(s).0),
        strip_state(s).1 is None ==> strip_state(s).2.len() == 0,
        strip_state(s).1 is Some ==> {
            let b = strip_state(s).2;
            &&& b.len() >= 1
            &&& opens_tag(b[0])
            &&& strip_state(s).1 == Some(closer(b[0]))
            &&& forall|j: int| 1 <= j < b.len() ==> #[trigger] b[j] != closer(b[0])
        },
    decreases s.len(),
{
    if s.len() > 0 {
        lemma_strip_state_shape(s.drop_last());
    }
}

proof fn lemma_strip_open_tail(s: Seq<char>)
    ensures
        open_tail(strip_markup(s)),
{
    lemma_strip_state_shape(s);
    let (k, ins, b) = strip_state(s);
    let c = strip_markup(s);
    lemma_first_open(c);
    if b.len() > 0 {
        assert(c[k.len() as int] == b[0]);
        assert(forall|i: int| 0 <= i < k.len() ==> c[i] == k[i]);
        assert(first_open(c) == k.len());
        assert forall|j: int| first_open(c) < j < c.len() implies #[trigger] c[j] != closer(c[first_open(c)]) by {
            assert(c[j] == b[j - k.len()]);
        }
    } else {
        assert(c =~= k);
    }
}

proof fn lemma_squeeze_open_tail(t: Seq<char>)
    requires
        open_tail(t),
    ensures
        open_tail(squeeze(t)),
        first_open(t) < t.len() <==> first_open(squeeze(t)) < squeeze(t).len(),
        first_open(t) < t.len() ==> squeeze(t)[first_open(squeeze(t))] == t[first_open(t)],
    decreases t.len(),
{
    lemma_first_open(t);
    if t.len() > 0 {
        let d = t.drop_last();
        let x = t.last();
        lemma_open_tail_prefix(t);
        lemma_first_open(d);
        lemma_squeeze_open_tail(d);
        let q = squeeze(d);
        let r = squeeze(t);
        lemma_first_open(q);
        lemma_first_open(r);
        assert(forall|i: int| 0 <= i < q.len() ==> r[i] == q[i]);
        if first_open(q) < q.len() {
            assert(first_open(r) == first_open(q));
            assert(first_open(d) == first_open(t));
            assert forall|j: int| first_open(r) < j < r.len() implies #[trigger] r[j] != closer(r[first_open(r)]) by {
                if j < q.len() {
                    assert(q[j] != closer(q[first_open(q)]));
                } else {
                    assert(t[t.len() - 1] != closer(t[first_open(t)]));
                }
            }
        } else if r.len() > q.len() && opens_tag(r[r.len() - 1]) {
            assert(r[r.len() - 1] == x);
            assert(first_open(r) == q.len());
            assert(first_open(t) == t.len() - 1);
        } else {
            assert(first_open(r) == r.len());
            if opens_tag(x) {
                assert(is_space(x));
            }
            assert(first_open(t) == t.len());
        }
    }
}

pub(crate) proof fn lemma_squeeze_props(s: Seq<char>)
    ensures
        squeezed(squeeze(s)),
        no_tag_open(s) ==> no_tag_open(squeeze(s)),
    decreases s.len(),
{
    if s.len() > 0 {
        lemma_squeeze_props(s.drop_last());
        let p = squeeze(s.drop_last());
        let q = squeeze(s);
        if no_tag_open(s) {
            assert(no_tag_open(s.drop_last()));
            assert(!opens_tag(s[s.len() - 1]));
        }
        assert forall|i: int| 0 <= i < q.len() - 1 && #[trigger] q[i] == ' ' implies q[i + 1] != ' ' by {
            if i < p.len() - 1 {
                assert(p[i] == ' ');
            }
        }
    }
}

proof fn lemma_squeeze_identity(s: Seq<char>)
    requires
        squeezed(s),
    ensures
        squeeze(s) == s,
    decreases s.len(),
{
    if s.len() > 0 {
        let d = s.drop_last();
        assert(squeezed(d)) by {
            assert forall|i: int| 0 <= i < d.len() - 1 && #[trigger] d[i] == ' ' implies d[i + 1] != ' ' by {
                assert(s[i] == ' ');
            }
        }
        lemma_squeeze_identity(d);
        if is_space(s.last()) {
            assert(s[s.len() - 1] == ' ');
            assert(d.len() > 0);
            assert(s[s.len() - 2] != ' ');
        }
        assert(d.push(s.last()) =~= s);
    }
}

/// A cleaned line is clean already.
proof fn lemma_clean_line_idempotent(s: Seq<char>)
    ensures
        clean_line(clean_line(s)) == clean_line(s),
{
    let t = strip_markup(s);
    lemma_squeeze_props(t);
    lemma_strip_open_tail(s);
    lemma_squeeze_open_tail(t);
    let q = squeeze(t);
    let l = clean_line(s);
    assert(squeezed(l) && open_tail(l)) by {
        if q.len() > 0 && q.last() == ' ' {
            assert forall|i: int| 0 <= i < l.len() - 1 && #[trigger] l[i] == ' ' implies l[i + 1] != ' ' by {
                assert(q[i] == ' ');
            }
            lemma_open_tail_prefix(q);
            assert(q.drop_last() =~= l);
        }
    }
    lemma_strip_identity(l);
    lemma_squeeze_identity(l);
    if l.len() > 0 {
        if q.len() > 0 && q.last() == ' ' {
            assert(q[q.len() - 2] != ' ');
        }
    }
}

proof fn lemma_clean_lines_idempotent(ls: Seq<Seq<char>>)
    ensures
        clean_lines(clean_lines(ls)) == clean_lines(ls),
    decreases ls.len(),
{
    if ls.len() > 0 {
        lemma_clean_lines_idempotent(ls.drop_last());
        let p = clean_lines(ls.drop_last());
        let l = clean_line(ls.last());
        lemma_clean_line_idempotent(ls.last());
        if l.len() > 0 {
            assert(p.push(l).drop_last() =~= p);
        }
    }
}

/// Cleaning twice gives what cleaning once gives.
pub proof fn lemma_clean_idempotent(s: Seq<CueModel>)
    ensures
        clean_cues(clean_cues(s)) == clean_cues(s),
    decreases s.len(),
{
    if s.len() > 0 {
        lemma_clean_idempotent(s.drop_last());
        let p = clean_cues(s.drop_last());
        match clean_cue(s.last()) {
            Some(c) => {
                lemma_clean_lines_idempotent(s.last().lines);
                assert(p.push(c).drop_last() =~= p);
                assert(clean_cue(c) == Some(c));
            },
            None => {},
        }
    }
}

/// Cleans one line given as chars.
pub fn clean_line_chars(s: &[char]) -> (r: Vec<char>)
    ensures
        r@ == clean_line(s@),
{
    let mut kept: Vec<char> = Vec::new();
    let mut inside: Option<char> = None;
    let mut pending: Vec<char> = Vec::new();
    let mut i: usize = 0;
    assert(pending@ =~= Seq::<char>::empty());
    while i < s.len()
        invariant
            i <= s@.len(),
            (kept@, inside, pending@) == strip_state(s@.subrange(0, i as int)),
        decreases s@.len() - i,
    {
        assert(s@.subrange(0, i + 1).drop_last() =~= s@.subrange(0, i as int));
        let c = s[i];
        match inside {
            Some(close) => {
                if c == close {
                    inside = None;
                    pending = Vec::new();
                    assert(pending@ =~= Seq::<char>::empty());
                } else {
                    pending.push(c);
                }
            },
            None => {
                if c == '<' || c == '{' {
                    inside = Some(if c == '<' { '>' } else { '}' });
                    pending = Vec::new();
                    pending.push(c);
                    assert(pending@ =~= seq![c]);
                } else {
                    kept.push(c);
                }
            },
        }
        i = i + 1;
    }
    assert(s@.subrange(0, s@.len() as int) =~= s@);
    let mut j0: usize = 0;
    let ghost k0 = kept@;
    while j0 < pending.len()
        invariant
            j0 <= pending@.len(),
            kept@ == k0 + pending@.subrange(0, j0 as int),
        decreases pending@.len() - j0,
    {
        kept.push(pending[j0]);
        j0 = j0 + 1;
        assert(kept@ =~= k0 + pending@.subrange(0, j0 as int));
    }
    assert(pending@.subrange(0, pending@.len() as int) =~= pending@);
    let ghost t = kept@;
    let mut out: Vec<char> = Vec::new();
    let mut j: usize = 0;
    while j < kept.len()
        invariant
            j <= kept@.len(),
            kept@ == t,
            out@ == squeeze(t.subrange(0, j as int)),
        decreases kept@.len() - j,
    {
        assert(t.subrange(0, j + 1).drop_last() =~= t.subrange(0, j as int));
        let c = kept[j];
        if space(c) {
            if out.len() > 0 && out[out.len() - 1] != ' ' {
                out.push(' ');
            }
        } else {
            out.push(c);
        }
        j = j + 1;
    }
    assert(t.subrange(0, t.len() as int) =~= t);
    if out.len() > 0 && out[out.len() - 1] == ' ' {
        out.pop();
    }
    out
}

/// Cleans one line.
pub fn clean_line_text(s: &String) -> (r: String)
    ensures
        r@ == clean_line(s@),
{
    let cs = chars_of(s.as_str());
    let out = clean_line_chars(cs.as_slice());
    string_of(out.as_slice())
}

/// Whether `s` holds an alphabetic char.
fn holds_alpha(s: &String) -> (r: bool)
    ensures
        r == has_alpha(s@),
{
    let cs = chars_of(s.as_str());
    let mut i: usize = 0;
    while i < cs.len()
        invariant
            i <= cs@.len(),
            cs@ == s@,
            forall|j: int| 0 <= j < i ==> !alphabetic(#[trigger] cs@[j]),
        decreases cs@.len() - i,
    {
        if is_alphabetic(cs[i]) {
            return true;
        }
        i = i + 1;
    }
    false
}

/// Cleans a cue: `None` when nothing that looks like dialog is left.
pub fn clean_one(c: &Cue) -> (r: Option<Cue>)
    ensures
        match r {
            Some(x) => clean_cue(c@) == Some(x@),
            None => clean_cue(c@) is None,
        },
{
    let mut lines: Vec<String> = Vec::new();
    let mut i: usize = 0;
    while i < c.lines.len()
        invariant
            i <= c.lines@.len(),
            lines_view(lines@) == clean_lines(lines_view(c.lines@).subrange(0, i as int)),
        decreases c.lines@.len() - i,
    {
        let ghost sub = lines_view(c.lines@).subrange(0, i + 1);
        assert(sub.drop_last() =~= lines_view(c.lines@).subrange(0, i as int));
        let cs = chars_of(c.lines[i].as_str());
        let lc = clean_line_chars(cs.as_slice());
        if lc.len() > 0 {
            let l = string_of(lc.as_slice());
            let ghost before = lines@;
            lines.push(l);
            assert(lines_view(lines@) =~= lines_view(before).push(l@));
        }
        i = i + 1;
    }
    assert(lines_view(c.lines@).subrange(0, c.lines@.len() as int) =~= lines_view(c.lines@));
    if lines.len() == 0 {
        return None;
    }
    if lines.len() == 1 {
        if !holds_alpha(&lines[0]) {
            return None;
        }
        let cs = chars_of(lines[0].as_str());
        if credit_line(cs.as_slice()) {
            return None;
        }
    }
    Some(Cue { start: c.start, end: c.end, lines })
}

/// Cleaning keeps cues in order of start time and never touches their timing.
pub proof fn lemma_clean_sorted(s: Seq<CueModel>)
    requires
        sorted_by_start(s),
    ensures
        sorted_by_start(clean_cues(s)),
        s.len() > 0 ==> forall|i: int| 0 <= i < clean_cues(s).len() ==> (#[trigger] clean_cues(s)[i]).start <= s.last().start,
    decreases s.len(),
{
    if s.len() > 0 {
        let d = s.drop_last();
        assert(sorted_by_start(d));
        lemma_clean_sorted(d);
        let p = clean_cues(d);
        if d.len() > 0 {
            assert(d.last().start <= s.last().start);
        }
        assert(s[s.len() - 1].start <= s[s.len() - 1].end);
        let r = clean_cues(s);
        assert forall|i: int| 0 <= i < r.len() implies (#[trigger] r[i]).start <= s.last().start by {
            if i < p.len() {
                assert(r[i] == p[i]);
            }
        }
        assert forall|i: int, j: int| 0 <= i < j < r.len() implies r[i].start <= r[j].start by {
            if j < p.len() {
                assert(r[i] == p[i] && r[j] == p[j]);
            } else {
                assert(r[i] == p[i]);
            }
        }
    }
}

impl SubtitleFile {
    /// The file with every cue cleaned and the dropped cues left out.
    pub fn clean(&self) -> (r: SubtitleFile)
        ensures
            r@ == clean_cues(self@),
            self.wf() ==> r.wf(),
    {
        proof {
            if self.wf() {
                lemma_clean_sorted(self@);
            }
        }
        let mut cues: Vec<Cue> = Vec::new();
        let mut i: usize = 0;
        while i < self.cues.len()
            invariant
                i <= self@.len(),
                crate::cue::cues_view(cues@) == clean_cues(self@.subrange(0, i as int)),
            decreases self@.len() - i,
        {
            assert(self@.subrange(0, i + 1).drop_last() =~= self@.subrange(0, i as int));
            match clean_one(&self.cues[i]) {
                Some(c) => {
                    let ghost before = cues@;
                    cues.push(c);
                    assert(crate::cue::cues_view(cues@) =~= crate::cue::cues_view(before).push(c@));
                },
                None => {},
            }
            i = i + 1;
        }
        assert(self@.subrange(0, self@.len() as int) =~= self@);
        SubtitleFile { cues }
    }
}

} // verus!
