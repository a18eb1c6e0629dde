//! Byte spans reported by pattern matching, their character positions, and
//! the replacement of spanned text.
use vstd::prelude::*;
use crate::text::{self, append_chars, char_width, slice_chars};

verus! {

/// `b` is the byte offset of a character boundary of `text`.
pub open spec fn is_boundary(text: Seq<char>, b: int) -> bool {
    exists|k: int| 0 <= k <= text.len() && text::utf8_len(text.take(k)) == b
}

/// Byte spans that are ordered, do not overlap and start and end on
/// character boundaries of `text`.
pub open spec fn spans_well_formed(text: Seq<char>, spans: Seq<(usize, usize)>) -> bool {
    &&& forall|i: int|
        0 <= i < spans.len() ==> {
            &&& (#[trigger] spans[i]).0 <= spans[i].1
            &&& is_boundary(text, spans[i].0 as int)
            &&& is_boundary(text, spans[i].1 as int)
        }
    &&& forall|i: int| 0 <= i < spans.len() - 1 ==> (#[trigger] spans[i]).1 <= spans[i + 1].0
}

/// Character spans that are ordered, do not overlap and lie within `n` characters.
pub open spec fn char_spans_ordered(spans: Seq<(usize, usize)>, n: int) -> bool {
    &&& forall|i: int| 0 <= i < spans.len() ==> (#[trigger] spans[i]).0 <= spans[i].1 <= n
    &&& forall|i: int| 0 <= i < spans.len() - 1 ==> (#[trigger] spans[i]).1 <= spans[i + 1].0
}

/// `cs` gives, character by character, the positions of the byte spans `bs`.
pub open spec fn char_spans_of(text: Seq<char>, bs: Seq<(usize, usize)>, cs: Seq<(usize, usize)>) -> bool {
    &&& cs.len() == bs.len()
    &&& char_spans_ordered(cs, text.len() as int)
    &&& forall|i: int|
        0 <= i < cs.len() ==> text::utf8_len(text.take((#[trigger] cs[i]).0 as int)) == bs[i].0
            && text::utf8_len(text.take(cs[i].1 as int)) == bs[i].1
}

/// The character index of a byte offset on a character boundary.
pub open spec fn char_index(text: Seq<char>, b: int) -> int {
    choose|k: int| 0 <= k <= text.len() && text::utf8_len(text.take(k)) == b
}

/// The character positions of byte spans.
pub open spec fn char_span_seq(text: Seq<char>, bs: Seq<(usize, usize)>) -> Seq<(usize, usize)> {
    Seq::new(
        bs.len(),
        |i: int| (char_index(text, bs[i].0 as int) as usize, char_index(text, bs[i].1 as int) as usize),
    )
}

pub proof fn lemma_char_spans_unique(text: Seq<char>, bs: Seq<(usize, usize)>, cs: Seq<(usize, usize)>)
    requires
        char_spans_of(text, bs, cs),
    ensures
        cs == char_span_seq(text, bs),
{
    assert forall|i: int| 0 <= i < cs.len() implies #[trigger] cs[i] == char_span_seq(text, bs)[i] by {
        let a = cs[i].0 as int;
        let b = cs[i].1 as int;
        let ka = char_index(text, bs[i].0 as int);
        let kb = char_index(text, bs[i].1 as int);
        assert(0 <= ka <= text.len() && text::utf8_len(text.take(ka)) == bs[i].0);
        assert(0 <= kb <= text.len() && text::utf8_len(text.take(kb)) == bs[i].1);
        lemma_boundary_unique(text, a, ka);
        lemma_boundary_unique(text, b, kb);
    }
    assert(cs =~= char_span_seq(text, bs));
}

pub proof fn lemma_boundary_unique(text: Seq<char>, k1: int, k2: int)
    requires
        0 <= k1 <= text.len(),
        0 <= k2 <= text.len(),
        text::utf8_len(text.take(k1)) == text::utf8_len(text.take(k2)),
    ensures
        k1 == k2,
{
    if k1 < k2 {
        text::lemma_utf8_len_take_mono(text, k1, k2);
    } else if k2 < k1 {
        text::lemma_utf8_len_take_mono(text, k2, k1);
    }
}

/// The character positions of well-formed byte spans.
pub fn to_char_spans(text: &Vec<char>, spans: &Vec<(usize, usize)>) -> (r: Vec<(usize, usize)>)
    requires
        spans_well_formed(text@, spans@),
    ensures
        char_spans_of(text@, spans@, r@),
        r@ == char_span_seq(text@, spans@),
{
    let mut r: Vec<(usize, usize)> = Vec::new();
    let mut k: usize = 0;
    let mut offset: usize = 0;
    let mut i: usize = 0;
    while i < spans.len()
        invariant
            spans_well_formed(text@, spans@),
            i <= spans.len(),
            k <= text.len(),
            offset == text::utf8_len(text@.take(k as int)),
            r@.len() == i,
            char_spans_ordered(r@, k as int),
            i > 0 ==> r@[i - 1].1 == k,
            i < spans.len() ==> offset <= spans@[i as int].0,
            forall|j: int|
                0 <= j < i ==> text::utf8_len(text@.take((#[trigger] r@[j]).0 as int)) == spans@[j].0
                    && text::utf8_len(text@.take(r@[j].1 as int)) == spans@[j].1,
        decreases spans.len() - i,
    {
        let (bstart, bend) = spans[i];
        assert(spans@[i as int].0 <= spans@[i as int].1);
        assert(is_boundary(text@, bstart as int));
        assert(is_boundary(text@, bend as int));
        let ghost ks = choose|q: int| 0 <= q <= text@.len() && text::utf8_len(text@.take(q)) == bstart;
        let ghost ke = choose|q: int| 0 <= q <= text@.len() && text::utf8_len(text@.take(q)) == bend;
        proof {
            if ks < k {
                text::lemma_utf8_len_take_mono(text@, ks, k as int);
            }
            if ke < ks {
                text::lemma_utf8_len_take_mono(text@, ke, ks);
            }
        }
        while offset < bstart
            invariant
                k <= ks <= text@.len(),
                offset == text::utf8_len(text@.take(k as int)),
                text::utf8_len(text@.take(ks)) == bstart,
                offset <= bstart,
            decreases ks - k,
        {
            proof {
                if k == ks {
                    assert(false);
                }
                assert(k < text.len());
                text::lemma_utf8_len_take_step(text@, k as int);
                text::lemma_utf8_len_take_mono(text@, k as int + 1, ks);
            }
            offset = offset + char_width(text[k]);
            k = k + 1;
        }
        proof {
            if k < ks {
                text::lemma_utf8_len_take_mono(text@, k as int, ks);
            }
        }
        let cstart = k;
        while offset < bend
            invariant
                k <= ke <= text@.len(),
                offset == text::utf8_len(text@.take(k as int)),
                text::utf8_len(text@.take(ke)) == bend,
                offset <= bend,
            decreases ke - k,
        {
            proof {
                if k == ke {
                    assert(false);
                }
                assert(k < text.len());
                text::lemma_utf8_len_take_step(text@, k as int);
                text::lemma_utf8_len_take_mono(text@, k as int + 1, ke);
            }
            offset = offset + char_width(text[k]);
            k = k + 1;
        }
        proof {
            if k < ke {
                text::lemma_utf8_len_take_mono(text@, k as int, ke);
            }
            if i + 1 < spans.len() {
                assert(spans@[i as int].1 <= spans@[i + 1].0);
            }
        }
        r.push((cstart, k));
        i = i + 1;
    }
    proof {
        lemma_char_spans_unique(text@, spans@, r@);
    }
    r
}

/// `text` with the character spans `cs` replaced by `reps`, span by span,
/// as a regex `replace_all` builds its result.
#[verifier::opaque]
pub open spec fn splice(text: Seq<char>, cs: Seq<(usize, usize)>, reps: Seq<Seq<char>>) -> Seq<char>
    decreases cs.len(),
{
    if cs.len() == 0 {
        text
    } else {
        let last = cs.last();
        splice(text.take(last.0 as int), cs.drop_last(), reps.drop_last()) + reps[cs.len() - 1]
            + text.skip(last.1 as int)
    }
}

proof fn lemma_splice_extend(
    text: Seq<char>,
    cs: Seq<(usize, usize)>,
    reps: Seq<Seq<char>>,
    p: int,
    q: int,
)
    requires
        char_spans_ordered(cs, p),
        0 <= p <= q <= text.len(),
    ensures
        splice(text.take(q), cs, reps) == splice(text.take(p), cs, reps) + text.subrange(p, q),
    decreases cs.len(),
{
    reveal(splice);
    if cs.len() == 0 {
        assert(text.take(q) =~= text.take(p) + text.subrange(p, q));
    } else {
        let last = cs.last();
        assert(text.take(q).take(last.0 as int) =~= text.take(p).take(last.0 as int));
        assert(text.take(q).skip(last.1 as int) =~= text.take(p).skip(last.1 as int)
            + text.subrange(p, q));
    }
}

pub proof fn lemma_spans_chain(cs: Seq<(usize, usize)>, n: int, j: int, m: int)
    requires
        char_spans_ordered(cs, n),
        0 <= j < m < cs.len(),
    ensures
        cs[j].1 <= cs[m].0,
    decreases m - j,
{
    assert(cs[m - 1].1 <= cs[m].0);
    if j < m - 1 {
        lemma_spans_chain(cs, n, j, m - 1);
    }
}

proof fn lemma_splice_step(
    text: Seq<char>,
    cs: Seq<(usize, usize)>,
    reps: Seq<Seq<char>>,
    i: int,
    pos: int,
)
    requires
        char_spans_ordered(cs, text.len() as int),
        reps.len() == cs.len(),
        0 <= i < cs.len(),
        0 <= pos <= cs[i].0,
        i > 0 ==> pos == cs[i - 1].1,
    ensures
        splice(text.take(cs[i].1 as int), cs.take(i + 1), reps.take(i + 1)) == splice(
            text.take(pos),
            cs.take(i),
            reps.take(i),
        ) + text.subrange(pos, cs[i].0 as int) + reps[i],
{
    reveal(splice);
    let a = cs[i].0 as int;
    let b = cs[i].1 as int;
    assert(char_spans_ordered(cs.take(i), pos)) by {
        assert forall|j: int| 0 <= j < i implies (#[trigger] cs.take(i)[j]).1 <= pos by {
            if j < i - 1 {
                lemma_spans_chain(cs, text.len() as int, j, i - 1);
            }
        }
    }
    lemma_splice_extend(text, cs.take(i), reps.take(i), pos, a);
    let t = text.take(b);
    assert(cs.take(i + 1).drop_last() =~= cs.take(i));
    assert(reps.take(i + 1).drop_last() =~= reps.take(i));
    assert(t.take(a) =~= text.take(a));
    assert(t.skip(b) =~= Seq::<char>::empty());
    assert(text.take(a).subrange(pos, a) =~= text.subrange(pos, a));
    assert(cs.take(i + 1).last() == cs[i]);
    assert(splice(t, cs.take(i + 1), reps.take(i + 1)) == splice(t.take(a), cs.take(i), reps.take(i))
        + reps.take(i + 1)[i] + t.skip(b));
}

proof fn lemma_splice_finish(text: Seq<char>, cs: Seq<(usize, usize)>, reps: Seq<Seq<char>>, pos: int)
    requires
        char_spans_ordered(cs, text.len() as int),
        cs.len() > 0 ==> pos == cs.last().1,
        cs.len() == 0 ==> pos == 0,
    ensures
        splice(text.take(pos), cs, reps) + text.subrange(pos, text.len() as int) == splice(text, cs, reps),
{
    assert(char_spans_ordered(cs, pos)) by {
        assert forall|j: int| 0 <= j < cs.len() implies (#[trigger] cs[j]).1 <= pos by {
            if j < cs.len() - 1 {
                lemma_spans_chain(cs, text.len() as int, j, cs.len() - 1);
            }
        }
    }
    lemma_splice_extend(text, cs, reps, pos, text.len() as int);
    assert(text.take(text.len() as int) =~= text);
}

/// Replaces the character spans `cs` of `text` by `reps`.
#[verifier::rlimit(40)]
pub fn splice_chars(text: &Vec<char>, cs: &Vec<(usize, usize)>, reps: &Vec<Vec<char>>) -> (r: Vec<
    char,
>)
    requires
        char_spans_ordered(cs@, text@.len() as int),
        reps@.len() == cs@.len(),
    ensures
        r@ == splice(text@, cs@, text::views(reps@)),
{
    let mut out: Vec<char> = Vec::new();
    let mut pos: usize = 0;
    let mut i: usize = 0;
    proof {
        reveal(splice);
        assert(out@ =~= text@.take(0));
        assert(cs@.take(0).len() == 0);
    }
    while i < cs.len()
        invariant
            char_spans_ordered(cs@, text@.len() as int),
            reps@.len() == cs@.len(),
            i <= cs.len(),
            pos <= text.len(),
            i > 0 ==> pos == cs@[i - 1].1,
            i == 0 ==> pos == 0,
            i < cs.len() ==> pos <= cs@[i as int].0,
            out@ == splice(text@.take(pos as int), cs@.take(i as int), text::views(reps@).take(i as int)),
        decreases cs.len() - i,
    {
        let (a, b) = cs[i];
        let gap = slice_chars(text, pos, a);
        let ghost before = out@;
        proof {
            lemma_splice_step(text@, cs@, text::views(reps@), i as int, pos as int);
            assert(text::views(reps@)[i as int] == reps@[i as int]@);
        }
        append_chars(&mut out, &gap);
        append_chars(&mut out, &reps[i]);
        proof {
            assert(out@ == before + gap@ + reps@[i as int]@);
            if i + 1 < cs.len() {
                assert(cs@[i as int].1 <= cs@[i + 1].0);
            }
        }
        pos = b;
        i = i + 1;
    }
    let tail = slice_chars(text, pos, text.len());
    proof {
        assert(cs@.take(i as int) =~= cs@);
        assert(text::views(reps@).take(i as int) =~= text::views(reps@));
        lemma_splice_finish(text@, cs@, text::views(reps@), pos as int);
    }
    append_chars(&mut out, &tail);
    out
}

} // verus!
