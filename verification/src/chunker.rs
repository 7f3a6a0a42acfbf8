//! The text chunker: turns raw document text into an ordered sequence of
//! possibly-overlapping chunks, each bounded by a configured size, so that
//! downstream embedding calls operate on digestible units.
//!
//! Separators are tried in priority order; the first separator whose
//! chunking yields at least one non-empty chunk determines the result for
//! the whole text. Segments between separator occurrences are accumulated
//! into a running chunk, which is flushed whenever the next segment — with
//! the separator that rejoins it — would push the chunk past the
//! configured size; a flushed chunk seeds the next one with its trailing
//! `chunk_overlap` characters (or nothing, when the flushed chunk is
//! shorter than the overlap or the overlap is zero). Counting the joining
//! separator in the flush check keeps every chunk within the size bound
//! except around a segment too large to fit behind the seed
//! ([`lemma_chunks_within_size`]).

use vstd::prelude::*;
use vstd::string::*;

verus! {

// ---------------------------------------------------------------------------
// Whitespace and trimming
// ---------------------------------------------------------------------------
/// The characters stripped from chunk edges: ASCII whitespace.
pub open spec fn is_space_char(c: char) -> bool {
    c == ' ' || c == '\t' || c == '\n' || c == '\r' || c == '\u{b}' || c == '\u{c}'
}

/// Runtime test for [`is_space_char`].
pub fn is_space(c: char) -> (r: bool)
    ensures
        r == is_space_char(c),
{
    c == ' ' || c == '\t' || c == '\n' || c == '\r' || c == '\u{b}' || c == '\u{c}'
}

/// `s` without its leading whitespace.
pub open spec fn trim_front(s: Seq<char>) -> Seq<char>
    decreases s.len(),
{
    if s.len() > 0 && is_space_char(s.first()) {
        trim_front(s.drop_first())
    } else {
        s
    }
}

/// `s` without its trailing whitespace.
pub open spec fn trim_back(s: Seq<char>) -> Seq<char>
    decreases s.len(),
{
    if s.len() > 0 && is_space_char(s.last()) {
        trim_back(s.drop_last())
    } else {
        s
    }
}

/// `s` without leading and trailing whitespace.
pub open spec fn trim_spec(s: Seq<char>) -> Seq<char> {
    trim_back(trim_front(s))
}

/// Trimming never lengthens a sequence.
pub proof fn lemma_trim_front_len(s: Seq<char>)
    ensures
        trim_front(s).len() <= s.len(),
    decreases s.len(),
{
    if s.len() > 0 && is_space_char(s.first()) {
        lemma_trim_front_len(s.drop_first());
    }
}

/// Trimming never lengthens a sequence.
pub proof fn lemma_trim_back_len(s: Seq<char>)
    ensures
        trim_back(s).len() <= s.len(),
    decreases s.len(),
{
    if s.len() > 0 && is_space_char(s.last()) {
        lemma_trim_back_len(s.drop_last());
    }
}

/// Trimming never lengthens a sequence.
pub proof fn lemma_trim_len(s: Seq<char>)
    ensures
        trim_spec(s).len() <= s.len(),
{
    lemma_trim_front_len(s);
    lemma_trim_back_len(trim_front(s));
}

// ---------------------------------------------------------------------------
// Character-level string helpers
// ---------------------------------------------------------------------------
/// The characters of `text`, in order, as a vector.
pub fn str_to_chars(text: &str) -> (r: Vec<char>)
    ensures
        r@ == text@,
{
    let n: usize = text.unicode_len();
    let mut r: Vec<char> = Vec::new();
    assert(text@.take(0int) =~= Seq::<char>::empty());
    for i in 0..n
        invariant
            n == text@.len(),
            r@ == text@.take(i as int),
    {
        r.push(text.get_char(i));
        proof {
            assert(text@.take(i as int).push(text@[i as int]) =~= text@.take(i + 1));
        }
    }
    proof {
        assert(text@.take(n as int) =~= text@);
    }
    r
}

/// Relies on std's `String::push`: appends exactly one character at the end
/// of the string.
#[verifier::external_body]
fn push_char(s: &mut String, c: char)
    ensures
        final(s)@ == old(s)@.push(c),
{
    s.push(c);
}

/// A string holding exactly the characters of `chars`, in order.
pub fn chars_to_string(chars: &Vec<char>) -> (r: String)
    ensures
        r@ == chars@,
{
    let mut s = String::new();
    let n: usize = chars.len();
    assert(chars@.take(0int) =~= Seq::<char>::empty());
    for i in 0..n
        invariant
            n == chars@.len(),
            s@ == chars@.take(i as int),
    {
        push_char(&mut s, chars[i]);
        proof {
            assert(chars@.take(i as int).push(chars@[i as int]) =~= chars@.take(i + 1));
        }
    }
    proof {
        assert(chars@.take(n as int) =~= chars@);
    }
    s
}

/// `v` with leading and trailing whitespace removed.
pub fn trim_chars(v: &Vec<char>) -> (r: Vec<char>)
    ensures
        r@ == trim_spec(v@),
{
    let n: usize = v.len();
    let mut start: usize = 0;
    assert(v@.skip(0int) =~= v@);
    while start < n && is_space(v[start])
        invariant
            start <= n,
            n == v@.len(),
            trim_front(v@) == trim_front(v@.skip(start as int)),
        decreases n - start,
    {
        proof {
            assert(v@.skip(start as int).first() == v@[start as int]);
            assert(v@.skip(start as int).drop_first() =~= v@.skip(start + 1));
        }
        start = start + 1;
    }
    proof {
        if start == n {
            assert(v@.skip(start as int) =~= Seq::<char>::empty());
        }
        assert(trim_front(v@) == v@.skip(start as int));
    }
    let ghost t = v@.skip(start as int);
    let mut end: usize = n;
    proof {
        assert(t.take(n - start) =~= t);
    }
    while end > start && is_space(v[end - 1])
        invariant
            start <= end <= n,
            n == v@.len(),
            t == v@.skip(start as int),
            trim_back(t) == trim_back(t.take(end - start)),
        decreases end,
    {
        proof {
            assert(t.take(end - start).last() == v@[end - 1]);
            assert(t.take(end - start).drop_last() =~= t.take(end - 1 - start));
        }
        end = end - 1;
    }
    proof {
        if end == start {
            assert(t.take(end - start) =~= Seq::<char>::empty());
        }
        assert(trim_back(t) == t.take(end - start));
    }
    let mut r: Vec<char> = Vec::new();
    let mut j: usize = start;
    while j < end
        invariant
            start <= j <= end <= n,
            n == v@.len(),
            r@ == v@.subrange(start as int, j as int),
        decreases end - j,
    {
        r.push(v[j]);
        proof {
            assert(v@.subrange(start as int, j as int).push(v@[j as int]) =~= v@.subrange(
                start as int,
                j + 1,
            ));
        }
        j = j + 1;
    }
    proof {
        assert(v@.subrange(start as int, end as int) =~= t.take(end - start));
    }
    r
}

// ---------------------------------------------------------------------------
// Splitting text at a separator
// ---------------------------------------------------------------------------
/// The segments of `text` between non-overlapping, leftmost occurrences of
/// `sep`; the separator itself is not part of any segment. An empty or
/// too-long separator yields the whole text as the single segment.
pub open spec fn split_at_sep(text: Seq<char>, sep: Seq<char>) -> Seq<Seq<char>>
    decreases text.len(),
{
    if sep.len() == 0 || text.len() < sep.len() {
        seq![text]
    } else if text.take(sep.len() as int) == sep {
        seq![Seq::<char>::empty()] + split_at_sep(text.skip(sep.len() as int), sep)
    } else {
        let rest = split_at_sep(text.drop_first(), sep);
        seq![seq![text.first()] + rest.first()] + rest.drop_first()
    }
}

/// Splitting always yields at least one segment.
pub proof fn lemma_split_nonempty(text: Seq<char>, sep: Seq<char>)
    ensures
        split_at_sep(text, sep).len() >= 1,
    decreases text.len(),
{
    if !(sep.len() == 0 || text.len() < sep.len()) {
        if text.take(sep.len() as int) == sep {
            lemma_split_nonempty(text.skip(sep.len() as int), sep);
        } else {
            lemma_split_nonempty(text.drop_first(), sep);
        }
    }
}

/// The atomic units the chunker accumulates for one separator: single
/// characters for the empty fallback separator, otherwise the segments
/// between separator occurrences.
pub open spec fn segments_of(text: Seq<char>, sep: Seq<char>) -> Seq<Seq<char>> {
    if sep.len() == 0 {
        Seq::new(text.len(), |i: int| seq![text[i]])
    } else {
        split_at_sep(text, sep)
    }
}

/// The character sequences of a sequence of character vectors.
pub open spec fn views_of(s: Seq<Vec<char>>) -> Seq<Seq<char>> {
    s.map_values(|v: Vec<char>| v@)
}

/// The character sequences of a sequence of strings.
pub open spec fn string_views(s: Seq<String>) -> Seq<Seq<char>> {
    s.map_values(|v: String| v@)
}

/// Whether `sep` occurs in `text` starting at position `i`.
fn matches_at(text: &Vec<char>, i: usize, sep: &Vec<char>) -> (r: bool)
    requires
        i + sep@.len() <= text@.len(),
    ensures
        r == (text@.subrange(i as int, i + sep@.len()) == sep@),
{
    let n: usize = text.len();
    let m: usize = sep.len();
    let mut j: usize = 0;
    while j < m
        invariant
            j <= m,
            m == sep@.len(),
            n == text@.len(),
            i + m <= n,
            forall|k: int| 0 <= k < j ==> text@[i + k] == sep@[k],
        decreases m - j,
    {
        assert(i + j < n);
        if text[i + j] != sep[j] {
            proof {
                assert(text@.subrange(i as int, i + m as int)[j as int] == text@[i + j]);
            }
            return false;
        }
        j = j + 1;
    }
    proof {
        assert(text@.subrange(i as int, i + m as int) =~= sep@);
    }
    true
}

/// Splits `text` into the segments of [`segments_of`].
pub(crate) fn split_segments(text: &Vec<char>, sep: &Vec<char>) -> (r: Vec<Vec<char>>)
    ensures
        views_of(r@) == segments_of(text@, sep@),
{
    let n: usize = text.len();
    let m: usize = sep.len();
    let mut segs: Vec<Vec<char>> = Vec::new();
    if m == 0 {
        for i in 0..n
            invariant
                n == text@.len(),
                views_of(segs@) == Seq::new(i as nat, |k: int| seq![text@[k]]),
        {
            let mut one: Vec<char> = Vec::new();
            one.push(text[i]);
            let ghost prev = segs@;
            segs.push(one);
            proof {
                assert(one@ =~= seq![text@[i as int]]);
                assert(views_of(prev).len() == prev.len());
                assert(prev.len() == i);
                assert(segs@ == prev.push(one));
                assert forall|k: int| 0 <= k < i + 1 implies #[trigger] views_of(segs@)[k]
                    == seq![text@[k]] by {
                    if k < i {
                        assert(views_of(prev)[k] == seq![text@[k]]);
                        assert(segs@[k] == prev[k]);
                    } else {
                        assert(segs@[k] == one);
                    }
                }
                assert(views_of(segs@) =~= Seq::new((i + 1) as nat, |k: int| seq![text@[k]]));
            }
        }
        proof {
            assert(views_of(segs@) =~= segments_of(text@, sep@));
        }
        return segs;
    }
    let ghost whole = split_at_sep(text@, sep@);
    let mut cur: Vec<char> = Vec::new();
    let mut i: usize = 0;
    proof {
        assert(text@.skip(0int) =~= text@);
        lemma_split_nonempty(text@, sep@);
        assert(views_of(segs@) =~= Seq::<Seq<char>>::empty());
        assert(Seq::<char>::empty() + whole.first() =~= whole.first());
        assert(Seq::<Seq<char>>::empty() + seq![whole.first()] + whole.drop_first() =~= seq![
            whole.first(),
        ] + whole.drop_first());
        assert(seq![whole.first()] + whole.drop_first() =~= whole);
    }
    while i < n
        invariant
            i <= n,
            n == text@.len(),
            m == sep@.len(),
            m >= 1,
            whole == split_at_sep(text@, sep@),
            whole == views_of(segs@) + seq![
                cur@ + split_at_sep(text@.skip(i as int), sep@).first(),
            ] + split_at_sep(text@.skip(i as int), sep@).drop_first(),
        decreases n - i,
    {
        let ghost tail = text@.skip(i as int);
        proof {
            lemma_split_nonempty(tail, sep@);
        }
        if m <= n - i && matches_at(text, i, sep) {
            proof {
                assert(tail.take(m as int) =~= text@.subrange(i as int, i + m as int));
                assert(tail.skip(m as int) =~= text@.skip(i + m));
                assert(split_at_sep(tail, sep@) == seq![Seq::<char>::empty()] + split_at_sep(
                    text@.skip(i + m),
                    sep@,
                ));
                lemma_split_nonempty(text@.skip(i + m), sep@);
            }
            let ghost prev = segs@;
            let ghost cur_old = cur@;
            segs.push(cur);
            cur = Vec::new();
            proof {
                let after = split_at_sep(text@.skip(i + m), sep@);
                // the first segment of the tail split is empty here
                assert(split_at_sep(tail, sep@).first() == Seq::<char>::empty());
                assert(split_at_sep(tail, sep@).drop_first() =~= after);
                assert(cur_old + Seq::<char>::empty() =~= cur_old);
                assert(views_of(segs@) =~= views_of(prev).push(cur_old));
                assert(cur@ + after.first() =~= after.first());
                assert(views_of(prev).push(cur_old) + seq![after.first()] + after.drop_first()
                    =~= views_of(prev) + seq![cur_old] + (seq![after.first()]
                    + after.drop_first()));
                assert(seq![after.first()] + after.drop_first() =~= after);
                assert(views_of(prev) + seq![cur_old] + after =~= views_of(prev) + seq![
                    cur_old + split_at_sep(tail, sep@).first(),
                ] + split_at_sep(tail, sep@).drop_first());
            }
            i = i + m;
        } else {
            proof {
                let tail2 = text@.skip(i + 1);
                if m <= n - i {
                    // no occurrence starts at i
                    assert(tail.take(m as int) =~= text@.subrange(i as int, i + m as int));
                    assert(tail.drop_first() =~= tail2);
                    let rest = split_at_sep(tail2, sep@);
                    lemma_split_nonempty(tail2, sep@);
                    assert(split_at_sep(tail, sep@) == seq![seq![tail.first()] + rest.first()]
                        + rest.drop_first());
                    assert(tail.first() == text@[i as int]);
                    assert(cur@ + (seq![text@[i as int]] + rest.first()) =~= cur@.push(
                        text@[i as int],
                    ) + rest.first());
                } else {
                    // the tail is shorter than the separator
                    assert(tail.len() < m);
                    assert(split_at_sep(tail, sep@) == seq![tail]);
                    assert(tail2.len() < m);
                    assert(split_at_sep(tail2, sep@) == seq![tail2]);
                    assert(tail =~= seq![text@[i as int]] + tail2);
                    assert(cur@ + tail =~= cur@.push(text@[i as int]) + tail2);
                    assert(split_at_sep(tail, sep@).first() == tail);
                    assert(split_at_sep(tail, sep@).drop_first() =~= Seq::<Seq<char>>::empty());
                    assert(split_at_sep(tail2, sep@).first() == tail2);
                    assert(split_at_sep(tail2, sep@).drop_first() =~= Seq::<Seq<char>>::empty());
                }
            }
            cur.push(text[i]);
            i = i + 1;
        }
    }
    proof {
        assert(text@.skip(n as int) =~= Seq::<char>::empty());
        assert(split_at_sep(Seq::<char>::empty(), sep@) == seq![Seq::<char>::empty()]);
        assert(cur@ + Seq::<char>::empty() =~= cur@);
    }
    let ghost prev = segs@;
    let ghost cur_old = cur@;
    segs.push(cur);
    proof {
        assert(views_of(segs@) =~= views_of(prev).push(cur_old));
        assert(split_at_sep(Seq::<char>::empty(), sep@).drop_first()
            =~= Seq::<Seq<char>>::empty());
        assert(views_of(prev) + seq![cur_old] + Seq::<Seq<char>>::empty() =~= views_of(prev).push(
            cur_old,
        ));
        assert(views_of(segs@) =~= whole);
    }
    segs
}

// ---------------------------------------------------------------------------
// Accumulating segments into chunks
// ---------------------------------------------------------------------------
/// A running chunk extended by one segment: the separator is re-inserted
/// between the existing content and the segment, so a chunk reads as the
/// segments joined by the separator they were split at.
pub open spec fn join_step(current: Seq<char>, seg: Seq<char>, sep: Seq<char>) -> Seq<char> {
    if current.len() == 0 {
        seg
    } else {
        current + sep + seg
    }
}

/// The trailing characters of a flushed chunk that seed the next one: the
/// last `overlap` characters, or nothing when the overlap is zero or the
/// chunk is shorter than the overlap.
pub open spec fn seed_of(chunk: Seq<char>, overlap: nat) -> Seq<char> {
    if overlap == 0 || chunk.len() < overlap {
        Seq::empty()
    } else {
        chunk.skip(chunk.len() - overlap)
    }
}

/// A non-empty running chunk is flushed before a segment that — with the
/// joining separator — would push it past `size`.
pub open spec fn must_flush(current: Seq<char>, seg: Seq<char>, sep: Seq<char>, size: nat) -> bool {
    current.len() > 0 && current.len() + sep.len() + seg.len() > size
}

/// The chunks accumulated from `segs`, starting from the running chunk
/// `current`: each segment either extends the running chunk or flushes it
/// first; whatever remains at the end becomes the last chunk.
pub open spec fn chunk_loop(
    segs: Seq<Seq<char>>,
    sep: Seq<char>,
    size: nat,
    overlap: nat,
    current: Seq<char>,
) -> Seq<Seq<char>>
    decreases segs.len(),
{
    if segs.len() == 0 {
        if current.len() == 0 {
            Seq::empty()
        } else {
            seq![current]
        }
    } else if must_flush(current, segs.first(), sep, size) {
        seq![current] + chunk_loop(
            segs.drop_first(),
            sep,
            size,
            overlap,
            join_step(seed_of(current, overlap), segs.first(), sep),
        )
    } else {
        chunk_loop(segs.drop_first(), sep, size, overlap, join_step(current, segs.first(), sep))
    }
}

/// Extends the running chunk by one segment, as [`join_step`] describes.
fn append_join(cur: &mut Vec<char>, seg: &Vec<char>, sep: &Vec<char>)
    ensures
        final(cur)@ == join_step(old(cur)@, seg@, sep@),
{
    let ghost cur0 = cur@;
    if cur.len() == 0 {
        let n: usize = seg.len();
        for j in 0..n
            invariant
                n == seg@.len(),
                cur@ == seg@.take(j as int),
        {
            cur.push(seg[j]);
            proof {
                assert(seg@.take(j as int).push(seg@[j as int]) =~= seg@.take(j + 1));
            }
        }
        proof {
            assert(seg@.take(n as int) =~= seg@);
        }
    } else {
        let p: usize = sep.len();
        for j in 0..p
            invariant
                p == sep@.len(),
                cur@ == cur0 + sep@.take(j as int),
        {
            cur.push(sep[j]);
            proof {
                assert((cur0 + sep@.take(j as int)).push(sep@[j as int]) =~= cur0 + sep@.take(
                    j + 1,
                ));
            }
        }
        let n: usize = seg.len();
        for j in 0..n
            invariant
                n == seg@.len(),
                p == sep@.len(),
                cur@ == cur0 + sep@.take(p as int) + seg@.take(j as int),
        {
            cur.push(seg[j]);
            proof {
                assert((cur0 + sep@.take(p as int) + seg@.take(j as int)).push(seg@[j as int])
                    =~= cur0 + sep@.take(p as int) + seg@.take(j + 1));
            }
        }
        proof {
            assert(sep@.take(p as int) =~= sep@);
            assert(seg@.take(n as int) =~= seg@);
            assert(cur0 + sep@.take(p as int) + seg@.take(n as int) =~= cur0 + sep@ + seg@);
        }
    }
}

/// The last `overlap` characters of `chunk`, per [`seed_of`].
fn seed_chunk(chunk: &Vec<char>, overlap: usize) -> (r: Vec<char>)
    ensures
        r@ == seed_of(chunk@, overlap as nat),
{
    let mut r: Vec<char> = Vec::new();
    let n: usize = chunk.len();
    if overlap == 0 || n < overlap {
        proof {
            assert(r@ =~= seed_of(chunk@, overlap as nat));
        }
        return r;
    }
    let start: usize = n - overlap;
    let mut j: usize = start;
    while j < n
        invariant
            start <= j <= n,
            n == chunk@.len(),
            r@ == chunk@.subrange(start as int, j as int),
        decreases n - j,
    {
        r.push(chunk[j]);
        proof {
            assert(chunk@.subrange(start as int, j as int).push(chunk@[j as int])
                =~= chunk@.subrange(start as int, j + 1));
        }
        j = j + 1;
    }
    proof {
        assert(chunk@.subrange(start as int, n as int) =~= chunk@.skip(start as int));
    }
    r
}

/// Accumulates the given segments into chunks, per [`chunk_loop`].
fn chunk_segments(segs: &Vec<Vec<char>>, sep: &Vec<char>, size: usize, overlap: usize) -> (r: Vec<
    Vec<char>,
>)
    ensures
        views_of(r@) == chunk_loop(
            views_of(segs@),
            sep@,
            size as nat,
            overlap as nat,
            Seq::<char>::empty(),
        ),
{
    let ghost all = views_of(segs@);
    let ghost goal = chunk_loop(all, sep@, size as nat, overlap as nat, Seq::<char>::empty());
    let mut chunks: Vec<Vec<char>> = Vec::new();
    let mut cur: Vec<char> = Vec::new();
    let n: usize = segs.len();
    proof {
        assert(all.skip(0int) =~= all);
        assert(views_of(chunks@) =~= Seq::<Seq<char>>::empty());
        assert(Seq::<Seq<char>>::empty() + goal =~= goal);
    }
    for i in 0..n
        invariant
            n == segs@.len(),
            all == views_of(segs@),
            goal == chunk_loop(all, sep@, size as nat, overlap as nat, Seq::<char>::empty()),
            goal == views_of(chunks@) + chunk_loop(
                all.skip(i as int),
                sep@,
                size as nat,
                overlap as nat,
                cur@,
            ),
    {
        let ghost rest = all.skip(i as int);
        proof {
            assert(rest.first() == segs@[i as int]@);
            assert(rest.drop_first() =~= all.skip(i + 1));
        }
        let seg = &segs[i];
        let seg_len: usize = seg.len();
        let sep_len: usize = sep.len();
        let flush = cur.len() > 0 && (seg_len > size || sep_len > size - seg_len || cur.len()
            > size - seg_len - sep_len);
        proof {
            assert(flush == must_flush(cur@, rest.first(), sep@, size as nat));
        }
        if flush {
            let seed = seed_chunk(&cur, overlap);
            let ghost prev = chunks@;
            let ghost cur_old = cur@;
            chunks.push(cur);
            cur = seed;
            proof {
                assert(views_of(chunks@) =~= views_of(prev).push(cur_old));
            }
            append_join(&mut cur, seg, sep);
            proof {
                assert(chunk_loop(rest, sep@, size as nat, overlap as nat, cur_old) == seq![
                    cur_old,
                ] + chunk_loop(all.skip(i + 1), sep@, size as nat, overlap as nat, cur@));
                assert(views_of(prev) + (seq![cur_old] + chunk_loop(
                    all.skip(i + 1),
                    sep@,
                    size as nat,
                    overlap as nat,
                    cur@,
                )) =~= views_of(prev).push(cur_old) + chunk_loop(
                    all.skip(i + 1),
                    sep@,
                    size as nat,
                    overlap as nat,
                    cur@,
                ));
            }
        } else {
            let ghost cur_b = cur@;
            append_join(&mut cur, seg, sep);
            proof {
                assert(cur@ == join_step(cur_b, rest.first(), sep@));
                assert(chunk_loop(rest, sep@, size as nat, overlap as nat, cur_b) == chunk_loop(
                    all.skip(i + 1),
                    sep@,
                    size as nat,
                    overlap as nat,
                    cur@,
                ));
            }
        }
    }
    proof {
        assert(all.skip(n as int) =~= Seq::<Seq<char>>::empty());
    }
    if cur.len() > 0 {
        let ghost prev = chunks@;
        let ghost cur_old = cur@;
        chunks.push(cur);
        proof {
            assert(views_of(chunks@) =~= views_of(prev).push(cur_old));
            assert(chunk_loop(Seq::<Seq<char>>::empty(), sep@, size as nat, overlap as nat, cur_old)
                == seq![cur_old]);
            assert(views_of(prev) + seq![cur_old] =~= views_of(prev).push(cur_old));
        }
    } else {
        proof {
            assert(chunk_loop(Seq::<Seq<char>>::empty(), sep@, size as nat, overlap as nat, cur@)
                =~= Seq::<Seq<char>>::empty());
            assert(views_of(chunks@) + Seq::<Seq<char>>::empty() =~= views_of(chunks@));
        }
    }
    chunks
}

// ---------------------------------------------------------------------------
// The chunking pipeline
// ---------------------------------------------------------------------------
/// The produced chunks: the accumulated chunks, each trimmed of leading and
/// trailing whitespace, with empty results dropped.
pub open spec fn trimmed_nonempty(chunks: Seq<Seq<char>>) -> Seq<Seq<char>>
    decreases chunks.len(),
{
    if chunks.len() == 0 {
        Seq::empty()
    } else {
        let rest = trimmed_nonempty(chunks.drop_last());
        let t = trim_spec(chunks.last());
        if t.len() > 0 {
            rest.push(t)
        } else {
            rest
        }
    }
}

/// The chunks that one separator yields for `text`.
pub open spec fn chunks_for_sep(text: Seq<char>, sep: Seq<char>, size: nat, overlap: nat) -> Seq<
    Seq<char>,
> {
    trimmed_nonempty(
        chunk_loop(segments_of(text, sep), sep, size, overlap, Seq::<char>::empty()),
    )
}

/// The chunking of `text`: separators are tried in order, and the first one
/// that yields at least one non-empty chunk determines the result.
pub open spec fn split_text_spec(
    text: Seq<char>,
    seps: Seq<Seq<char>>,
    size: nat,
    overlap: nat,
) -> Seq<Seq<char>>
    decreases seps.len(),
{
    if seps.len() == 0 {
        Seq::empty()
    } else {
        let c = chunks_for_sep(text, seps.first(), size, overlap);
        if c.len() > 0 {
            c
        } else {
            split_text_spec(text, seps.drop_first(), size, overlap)
        }
    }
}

/// The default separator priority list: paragraph break, line break,
/// sentence end, word break, and finally single characters.
pub open spec fn default_separators() -> Seq<Seq<char>> {
    seq!["\n\n"@, "\n"@, ". "@, " "@, ""@]
}

/// Trims every chunk and keeps the non-empty results, per
/// [`trimmed_nonempty`].
fn trim_and_filter(raw: &Vec<Vec<char>>) -> (r: Vec<Vec<char>>)
    ensures
        views_of(r@) == trimmed_nonempty(views_of(raw@)),
{
    let n: usize = raw.len();
    let mut out: Vec<Vec<char>> = Vec::new();
    proof {
        assert(views_of(raw@).take(0int) =~= Seq::<Seq<char>>::empty());
        assert(views_of(out@) =~= Seq::<Seq<char>>::empty());
    }
    for i in 0..n
        invariant
            n == raw@.len(),
            views_of(out@) == trimmed_nonempty(views_of(raw@).take(i as int)),
    {
        let t = trim_chars(&raw[i]);
        let ghost prev = out@;
        let ghost tv = t@;
        let keep = t.len() > 0;
        if keep {
            out.push(t);
        }
        proof {
            let all = views_of(raw@);
            assert(all.take(i + 1).drop_last() =~= all.take(i as int));
            assert(all.take(i + 1).last() == all[i as int]);
            assert(all[i as int] == raw@[i as int]@);
            assert(tv == trim_spec(all[i as int]));
            if keep {
                assert(views_of(out@) =~= views_of(prev).push(tv));
                assert(trimmed_nonempty(all.take(i + 1)) == trimmed_nonempty(
                    all.take(i as int),
                ).push(tv));
            } else {
                assert(trimmed_nonempty(all.take(i + 1)) == trimmed_nonempty(all.take(i as int)));
            }
        }
    }
    proof {
        assert(views_of(raw@).take(n as int) =~= views_of(raw@));
    }
    out
}

/// Splits raw text into possibly-overlapping chunks bounded by a target
/// size.
pub struct TextSplitter {
    /// The intended upper bound on a chunk's length, in characters.
    pub chunk_size: usize,
    /// How many trailing characters of a flushed chunk seed the next one.
    pub chunk_overlap: usize,
    /// The separators, tried in priority order.
    pub separators: Vec<String>,
}

impl TextSplitter {
    /// A splitter with the default separator list.
    pub fn new(chunk_size: usize, chunk_overlap: usize) -> (r: TextSplitter)
        ensures
            r.chunk_size == chunk_size,
            r.chunk_overlap == chunk_overlap,
            string_views(r.separators@) == default_separators(),
    {
        let mut separators: Vec<String> = Vec::new();
        separators.push("\n\n".to_owned());
        separators.push("\n".to_owned());
        separators.push(". ".to_owned());
        separators.push(" ".to_owned());
        separators.push("".to_owned());
        proof {
            assert(string_views(separators@) =~= default_separators());
        }
        TextSplitter { chunk_size, chunk_overlap, separators }
    }

    /// The ordered chunks of `text`, per [`split_text_spec`]: bounded
    /// accumulations of the segments of the first separator that yields any
    /// non-empty chunk, trimmed, with empty chunks dropped.
    pub fn split_text(&self, text: &str) -> (r: Vec<String>)
        ensures
            string_views(r@) == split_text_spec(
                text@,
                string_views(self.separators@),
                self.chunk_size as nat,
                self.chunk_overlap as nat,
            ),
            text@.len() == 0 ==> r@.len() == 0,
    {
        let ghost seps = string_views(self.separators@);
        let ghost goal = split_text_spec(
            text@,
            seps,
            self.chunk_size as nat,
            self.chunk_overlap as nat,
        );
        proof {
            if text@.len() == 0 {
                assert(text@ =~= Seq::<char>::empty());
                lemma_split_text_empty(seps, self.chunk_size as nat, self.chunk_overlap as nat);
            }
        }
        let chars = str_to_chars(text);
        let nseps: usize = self.separators.len();
        proof {
            assert(seps.skip(0int) =~= seps);
        }
        for si in 0..nseps
            invariant
                nseps == self.separators@.len(),
                chars@ == text@,
                seps == string_views(self.separators@),
                goal == split_text_spec(
                    text@,
                    seps,
                    self.chunk_size as nat,
                    self.chunk_overlap as nat,
                ),
                goal == split_text_spec(
                    text@,
                    seps.skip(si as int),
                    self.chunk_size as nat,
                    self.chunk_overlap as nat,
                ),
                text@.len() == 0 ==> goal == Seq::<Seq<char>>::empty(),
        {
            let sep_chars = str_to_chars(self.separators[si].as_str());
            proof {
                assert(sep_chars@ == seps.skip(si as int).first());
            }
            let segs = split_segments(&chars, &sep_chars);
            let raw = chunk_segments(&segs, &sep_chars, self.chunk_size, self.chunk_overlap);
            let kept = trim_and_filter(&raw);
            proof {
                assert(views_of(kept@) == chunks_for_sep(
                    text@,
                    sep_chars@,
                    self.chunk_size as nat,
                    self.chunk_overlap as nat,
                ));
                assert(seps.skip(si as int).drop_first() =~= seps.skip(si + 1));
            }
            if kept.len() > 0 {
                let nk: usize = kept.len();
                let mut out: Vec<String> = Vec::new();
                proof {
                    assert(string_views(out@) =~= views_of(kept@).take(0int));
                }
                for j in 0..nk
                    invariant
                        nk == kept@.len(),
                        string_views(out@) == views_of(kept@).take(j as int),
                {
                    let s = chars_to_string(&kept[j]);
                    let ghost sv = s@;
                    let ghost prev = out@;
                    out.push(s);
                    proof {
                        assert(string_views(prev).len() == prev.len());
                        assert(sv == views_of(kept@)[j as int]);
                        assert(out@ == prev.push(s));
                        assert(string_views(out@) =~= string_views(prev).push(sv));
                        assert(views_of(kept@).take(j as int).push(views_of(kept@)[j as int])
                            =~= views_of(kept@).take(j + 1));
                    }
                }
                proof {
                    assert(views_of(kept@).take(nk as int) =~= views_of(kept@));
                    assert(string_views(out@).len() == out@.len());
                }
                return out;
            }
        }
        proof {
            assert(seps.skip(nseps as int) =~= Seq::<Seq<char>>::empty());
        }
        Vec::new()
    }
}

// ---------------------------------------------------------------------------
// Laws of the chunker
// ---------------------------------------------------------------------------
/// The larger of two naturals.
pub open spec fn nat_max(a: nat, b: nat) -> nat {
    if a > b {
        a
    } else {
        b
    }
}

/// The length of the longest segment.
pub open spec fn max_seg_len(segs: Seq<Seq<char>>) -> nat
    decreases segs.len(),
{
    if segs.len() == 0 {
        0
    } else {
        nat_max(segs.first().len(), max_seg_len(segs.drop_first()))
    }
}

proof fn lemma_max_seg_le(segs: Seq<Seq<char>>, b: nat)
    requires
        forall|i: int| 0 <= i < segs.len() ==> #[trigger] segs[i].len() <= b,
    ensures
        max_seg_len(segs) <= b,
    decreases segs.len(),
{
    if segs.len() > 0 {
        assert(forall|i: int|
            0 <= i < segs.drop_first().len() ==> #[trigger] segs.drop_first()[i].len() <= b);
        lemma_max_seg_le(segs.drop_first(), b);
        assert(segs.first().len() <= b);
    }
}

/// The bound that holds of every chunk accumulated from `segs`, entered
/// with the running chunk `current`: the configured size, or — when a
/// segment cannot fit behind the overlap seed and one separator — the
/// seed, separator and longest segment together.
pub open spec fn chunk_len_bound(
    segs: Seq<Seq<char>>,
    sep: Seq<char>,
    size: nat,
    overlap: nat,
) -> nat {
    nat_max(size, (overlap + sep.len() + max_seg_len(segs)) as nat)
}

proof fn lemma_chunk_loop_bound(
    segs: Seq<Seq<char>>,
    sep: Seq<char>,
    size: nat,
    overlap: nat,
    current: Seq<char>,
)
    ensures
        forall|i: int|
            0 <= i < chunk_loop(segs, sep, size, overlap, current).len() ==> #[trigger] chunk_loop(
                segs,
                sep,
                size,
                overlap,
                current,
            )[i].len() <= nat_max(chunk_len_bound(segs, sep, size, overlap), current.len()),
    decreases segs.len(),
{
    let r = chunk_loop(segs, sep, size, overlap, current);
    let b = nat_max(chunk_len_bound(segs, sep, size, overlap), current.len());
    if segs.len() == 0 {
    } else {
        let seg = segs.first();
        let rest = segs.drop_first();
        assert(max_seg_len(rest) <= max_seg_len(segs));
        assert(seg.len() <= max_seg_len(segs));
        assert(chunk_len_bound(rest, sep, size, overlap) <= chunk_len_bound(
            segs,
            sep,
            size,
            overlap,
        ));
        if must_flush(current, seg, sep, size) {
            let cur2 = join_step(seed_of(current, overlap), seg, sep);
            assert(seed_of(current, overlap).len() <= overlap);
            assert(cur2.len() <= overlap + sep.len() + seg.len());
            assert(cur2.len() <= chunk_len_bound(segs, sep, size, overlap));
            lemma_chunk_loop_bound(rest, sep, size, overlap, cur2);
            let r2 = chunk_loop(rest, sep, size, overlap, cur2);
            assert forall|i: int| 0 <= i < r.len() implies #[trigger] r[i].len() <= b by {
                if i == 0 {
                    assert(r[0] == current);
                } else {
                    assert(r[i] == r2[i - 1]);
                    assert(r2[i - 1].len() <= nat_max(
                        chunk_len_bound(rest, sep, size, overlap),
                        cur2.len(),
                    ));
                }
            }
        } else {
            let cur2 = join_step(current, seg, sep);
            assert(cur2.len() <= chunk_len_bound(segs, sep, size, overlap)) by {
                if current.len() == 0 {
                    assert(cur2 == seg);
                } else {
                    assert(current.len() + sep.len() + seg.len() <= size);
                }
            }
            lemma_chunk_loop_bound(rest, sep, size, overlap, cur2);
            let r2 = chunk_loop(rest, sep, size, overlap, cur2);
            assert forall|i: int| 0 <= i < r.len() implies #[trigger] r[i].len() <= b by {
                assert(r[i] == r2[i]);
                assert(r2[i].len() <= nat_max(
                    chunk_len_bound(rest, sep, size, overlap),
                    cur2.len(),
                ));
            }
        }
    }
}

proof fn lemma_trimmed_bound(chunks: Seq<Seq<char>>, b: nat)
    requires
        forall|i: int| 0 <= i < chunks.len() ==> #[trigger] chunks[i].len() <= b,
    ensures
        forall|i: int|
            0 <= i < trimmed_nonempty(chunks).len() ==> #[trigger] trimmed_nonempty(
                chunks,
            )[i].len() <= b,
    decreases chunks.len(),
{
    if chunks.len() > 0 {
        let prev = chunks.drop_last();
        assert(forall|i: int| 0 <= i < prev.len() ==> #[trigger] prev[i].len() <= b);
        lemma_trimmed_bound(prev, b);
        lemma_trim_len(chunks.last());
        assert(chunks[chunks.len() - 1].len() <= b);
        let r = trimmed_nonempty(chunks);
        let rest = trimmed_nonempty(prev);
        let t = trim_spec(chunks.last());
        assert forall|i: int| 0 <= i < r.len() implies #[trigger] r[i].len() <= b by {
            if t.len() > 0 {
                assert(r == rest.push(t));
                if i < rest.len() {
                    assert(rest[i].len() <= b);
                } else {
                    assert(r[i] == t);
                }
            } else {
                assert(r == rest);
                assert(rest[i].len() <= b);
            }
        }
    }
}

/// SIZE BOUND LAW: every chunk produced for one separator is no longer
/// than the configured size — or, when a segment cannot fit together with
/// the overlap seed and one joining separator, than those three combined.
pub proof fn lemma_chunk_size_bound(text: Seq<char>, sep: Seq<char>, size: nat, overlap: nat)
    ensures
        forall|i: int|
            0 <= i < chunks_for_sep(text, sep, size, overlap).len() ==> #[trigger] chunks_for_sep(
                text,
                sep,
                size,
                overlap,
            )[i].len() <= chunk_len_bound(segments_of(text, sep), sep, size, overlap),
{
    let segs = segments_of(text, sep);
    lemma_chunk_loop_bound(segs, sep, size, overlap, Seq::<char>::empty());
    lemma_trimmed_bound(
        chunk_loop(segs, sep, size, overlap, Seq::<char>::empty()),
        chunk_len_bound(segs, sep, size, overlap),
    );
}

/// SIZE BOUND LAW, fallback case: when the single-character fallback
/// separator is in effect and the overlap lies below the chunk size, every
/// produced chunk fits within the chunk size, with no exception.
pub proof fn lemma_fallback_chunks_bounded(text: Seq<char>, size: nat, overlap: nat)
    requires
        1 <= size,
        overlap < size,
    ensures
        forall|i: int|
            0 <= i < chunks_for_sep(text, Seq::<char>::empty(), size, overlap).len()
                ==> #[trigger] chunks_for_sep(text, Seq::<char>::empty(), size, overlap)[i].len()
                <= size,
{
    let sep = Seq::<char>::empty();
    let segs = segments_of(text, sep);
    assert(forall|i: int| 0 <= i < segs.len() ==> #[trigger] segs[i].len() <= 1);
    lemma_max_seg_le(segs, 1);
    lemma_chunk_size_bound(text, sep, size, overlap);
    assert(chunk_len_bound(segs, sep, size, overlap) <= size);
}

/// SIZE BOUND LAW, strict case: whenever every segment fits within the
/// size together with the overlap seed and one joining separator, every
/// produced chunk is at most the configured size — the only chunks that
/// can ever exceed it are those built around a segment for which that
/// fails.
pub proof fn lemma_chunks_within_size(text: Seq<char>, sep: Seq<char>, size: nat, overlap: nat)
    requires
        forall|i: int|
            0 <= i < segments_of(text, sep).len() ==> overlap + sep.len() + (
            #[trigger] segments_of(text, sep)[i]).len() <= size,
    ensures
        forall|i: int|
            0 <= i < chunks_for_sep(text, sep, size, overlap).len() ==> #[trigger] chunks_for_sep(
                text,
                sep,
                size,
                overlap,
            )[i].len() <= size,
{
    let segs = segments_of(text, sep);
    lemma_chunk_size_bound(text, sep, size, overlap);
    if segs.len() > 0 {
        assert(overlap + sep.len() + segs[0].len() <= size);
        assert(forall|i: int|
            0 <= i < segs.len() ==> (#[trigger] segs[i]).len() <= size - overlap - sep.len());
        lemma_max_seg_le(segs, (size - overlap - sep.len()) as nat);
        assert(chunk_len_bound(segs, sep, size, overlap) <= size);
    } else {
        assert(max_seg_len(segs) == 0);
        assert(chunk_loop(segs, sep, size, overlap, Seq::<char>::empty())
            == Seq::<Seq<char>>::empty());
        assert(chunks_for_sep(text, sep, size, overlap) == Seq::<Seq<char>>::empty());
    }
}

proof fn lemma_chunk_loop_prefix(
    segs: Seq<Seq<char>>,
    sep: Seq<char>,
    size: nat,
    overlap: nat,
    current: Seq<char>,
)
    requires
        current.len() > 0,
    ensures
        chunk_loop(segs, sep, size, overlap, current).len() >= 1,
        chunk_loop(segs, sep, size, overlap, current)[0].len() >= current.len(),
        chunk_loop(segs, sep, size, overlap, current)[0].take(current.len() as int) == current,
    decreases segs.len(),
{
    let r = chunk_loop(segs, sep, size, overlap, current);
    if segs.len() == 0 {
        assert(r[0] == current);
        assert(current.take(current.len() as int) =~= current);
    } else if must_flush(current, segs.first(), sep, size) {
        assert(r[0] == current);
        assert(current.take(current.len() as int) =~= current);
    } else {
        let cur2 = join_step(current, segs.first(), sep);
        assert(cur2.take(current.len() as int) =~= current);
        lemma_chunk_loop_prefix(segs.drop_first(), sep, size, overlap, cur2);
        let r2 = chunk_loop(segs.drop_first(), sep, size, overlap, cur2);
        assert(r == r2);
        assert(r2[0].take(cur2.len() as int) == cur2);
        assert(r2[0].take(cur2.len() as int).take(current.len() as int) =~= r2[0].take(
            current.len() as int,
        ));
        assert(r[0].take(current.len() as int) == current);
    }
}

/// OVERLAP LAW: wherever the overlap is positive and a flushed chunk is at
/// least as long as the overlap, the next accumulated chunk begins with
/// exactly the flushed chunk's trailing `overlap` characters. (The produced
/// chunks are these accumulated ones after whitespace trimming.)
pub proof fn lemma_chunk_overlap(
    segs: Seq<Seq<char>>,
    sep: Seq<char>,
    size: nat,
    overlap: nat,
    current: Seq<char>,
)
    requires
        overlap > 0,
    ensures
        forall|i: int|
            0 <= i < chunk_loop(segs, sep, size, overlap, current).len() - 1 && (#[trigger] chunk_loop(
                segs,
                sep,
                size,
                overlap,
                current,
            )[i]).len() >= overlap ==> chunk_loop(segs, sep, size, overlap, current)[i + 1].take(
                overlap as int,
            ) == chunk_loop(segs, sep, size, overlap, current)[i].skip(
                chunk_loop(segs, sep, size, overlap, current)[i].len() - overlap,
            ),
    decreases segs.len(),
{
    let r = chunk_loop(segs, sep, size, overlap, current);
    if segs.len() == 0 {
    } else {
        let seg = segs.first();
        let rest = segs.drop_first();
        if must_flush(current, seg, sep, size) {
            let seed = seed_of(current, overlap);
            let cur2 = join_step(seed, seg, sep);
            let r2 = chunk_loop(rest, sep, size, overlap, cur2);
            lemma_chunk_overlap(rest, sep, size, overlap, cur2);
            assert forall|i: int|
                0 <= i < r.len() - 1 && (#[trigger] r[i].len()) >= overlap implies r[i + 1].take(
                overlap as int,
            ) == r[i].skip(r[i].len() - overlap) by {
                if i == 0 {
                    assert(r[0] == current);
                    assert(current.len() >= overlap);
                    assert(seed == current.skip(current.len() - overlap));
                    assert(seed.len() == overlap);
                    assert(cur2.take(overlap as int) =~= seed);
                    lemma_chunk_loop_prefix(rest, sep, size, overlap, cur2);
                    assert(r[1] == r2[0]);
                    assert(r2[0].take(cur2.len() as int) == cur2);
                    assert(r2[0].take(cur2.len() as int).take(overlap as int) =~= r2[0].take(
                        overlap as int,
                    ));
                    assert(r[1].take(overlap as int) == seed);
                } else {
                    assert(r[i] == r2[i - 1]);
                    assert(r[i + 1] == r2[i]);
                    assert(0 <= i - 1 < r2.len() - 1 && r2[i - 1].len() >= overlap ==> r2[(i - 1)
                        + 1].take(overlap as int) == r2[i - 1].skip(r2[i - 1].len() - overlap));
                }
            }
        } else {
            let cur2 = join_step(current, seg, sep);
            lemma_chunk_overlap(rest, sep, size, overlap, cur2);
            assert(r == chunk_loop(rest, sep, size, overlap, cur2));
        }
    }
}

/// OVERLAP LAW, produced chunks: where no accumulated chunk carries edge
/// whitespace (so trimming changes nothing and drops nothing), each
/// produced chunk that is at least `overlap` long hands its trailing
/// `overlap` characters to the next one as a prefix.
pub proof fn lemma_produced_chunk_overlap(text: Seq<char>, sep: Seq<char>, size: nat, overlap: nat)
    requires
        overlap > 0,
        forall|i: int|
            0 <= i < chunk_loop(segments_of(text, sep), sep, size, overlap, Seq::<char>::empty()).len()
                ==> trim_spec(
                #[trigger] chunk_loop(
                    segments_of(text, sep),
                    sep,
                    size,
                    overlap,
                    Seq::<char>::empty(),
                )[i],
            ) == chunk_loop(segments_of(text, sep), sep, size, overlap, Seq::<char>::empty())[i]
                && chunk_loop(
                segments_of(text, sep),
                sep,
                size,
                overlap,
                Seq::<char>::empty(),
            )[i].len() > 0,
    ensures
        forall|i: int|
            0 <= i < chunks_for_sep(text, sep, size, overlap).len() - 1 && (
            #[trigger] chunks_for_sep(text, sep, size, overlap)[i]).len() >= overlap
                ==> chunks_for_sep(text, sep, size, overlap)[i + 1].take(overlap as int)
                == chunks_for_sep(text, sep, size, overlap)[i].skip(
                chunks_for_sep(text, sep, size, overlap)[i].len() - overlap,
            ),
{
    let raw = chunk_loop(segments_of(text, sep), sep, size, overlap, Seq::<char>::empty());
    lemma_trimmed_identity(raw);
    lemma_chunk_overlap(segments_of(text, sep), sep, size, overlap, Seq::<char>::empty());
    assert(chunks_for_sep(text, sep, size, overlap) == raw);
}

/// Where every accumulated chunk is non-empty and already free of edge
/// whitespace, the produced chunks are exactly the accumulated ones — so
/// the overlap law then speaks of the produced chunks themselves.
pub proof fn lemma_trimmed_identity(chunks: Seq<Seq<char>>)
    requires
        forall|i: int|
            0 <= i < chunks.len() ==> trim_spec(#[trigger] chunks[i]) == chunks[i]
                && chunks[i].len() > 0,
    ensures
        trimmed_nonempty(chunks) == chunks,
    decreases chunks.len(),
{
    if chunks.len() > 0 {
        let prev = chunks.drop_last();
        assert(forall|i: int|
            0 <= i < prev.len() ==> trim_spec(#[trigger] prev[i]) == prev[i] && prev[i].len()
                > 0);
        lemma_trimmed_identity(prev);
        assert(chunks[chunks.len() - 1].len() > 0);
        assert(trimmed_nonempty(chunks) =~= chunks);
    }
}

/// SEPARATOR POLICY LAW: the result of chunking is either empty — every
/// separator came up empty — or exactly what the first separator yielding
/// any chunk produces, with every earlier separator yielding none. The
/// size-bound laws then apply to the result through that separator.
pub proof fn lemma_split_text_first_success(
    text: Seq<char>,
    seps: Seq<Seq<char>>,
    size: nat,
    overlap: nat,
)
    ensures
        split_text_spec(text, seps, size, overlap).len() == 0 || exists|j: int|
            0 <= j < seps.len() && split_text_spec(text, seps, size, overlap)
                == #[trigger] chunks_for_sep(text, seps[j], size, overlap) && chunks_for_sep(
                text,
                seps[j],
                size,
                overlap,
            ).len() > 0 && forall|k: int|
                0 <= k < j ==> chunks_for_sep(text, #[trigger] seps[k], size, overlap).len() == 0,
    decreases seps.len(),
{
    if seps.len() > 0 {
        let c = chunks_for_sep(text, seps.first(), size, overlap);
        if c.len() > 0 {
            assert(seps[0] == seps.first());
            assert(split_text_spec(text, seps, size, overlap) == chunks_for_sep(
                text,
                seps[0],
                size,
                overlap,
            ));
        } else {
            let rest = seps.drop_first();
            lemma_split_text_first_success(text, rest, size, overlap);
            let r = split_text_spec(text, seps, size, overlap);
            assert(r == split_text_spec(text, rest, size, overlap));
            if r.len() > 0 {
                let j = choose|j: int|
                    0 <= j < rest.len() && split_text_spec(text, rest, size, overlap)
                        == #[trigger] chunks_for_sep(text, rest[j], size, overlap)
                        && chunks_for_sep(text, rest[j], size, overlap).len() > 0 && forall|k: int|
                        0 <= k < j ==> chunks_for_sep(
                            text,
                            #[trigger] rest[k],
                            size,
                            overlap,
                        ).len() == 0;
                assert(seps[j + 1] == rest[j]);
                assert forall|k: int|
                    0 <= k < j + 1 implies chunks_for_sep(
                    text,
                    #[trigger] seps[k],
                    size,
                    overlap,
                ).len() == 0 by {
                    if k == 0 {
                        assert(seps[0] == seps.first());
                    } else {
                        assert(seps[k] == rest[k - 1]);
                    }
                }
                assert(0 <= j + 1 < seps.len() && r == chunks_for_sep(
                    text,
                    seps[j + 1],
                    size,
                    overlap,
                ) && chunks_for_sep(text, seps[j + 1], size, overlap).len() > 0);
            }
        }
    }
}

/// TOTALITY LAW, empty input: chunking the empty text yields no chunks,
/// whatever the separators and configuration.
pub proof fn lemma_split_text_empty(seps: Seq<Seq<char>>, size: nat, overlap: nat)
    ensures
        split_text_spec(Seq::<char>::empty(), seps, size, overlap) == Seq::<Seq<char>>::empty(),
    decreases seps.len(),
{
    let text = Seq::<char>::empty();
    if seps.len() > 0 {
        let sep = seps.first();
        let segs = segments_of(text, sep);
        if sep.len() == 0 {
            assert(segs =~= Seq::<Seq<char>>::empty());
            assert(chunk_loop(segs, sep, size, overlap, Seq::<char>::empty())
                == Seq::<Seq<char>>::empty());
        } else {
            assert(text.len() < sep.len());
            assert(segs == seq![text]);
            let one = seq![text];
            assert(one.first() == text);
            assert(!must_flush(Seq::<char>::empty(), text, sep, size));
            assert(join_step(Seq::<char>::empty(), text, sep) == text);
            assert(one.drop_first() =~= Seq::<Seq<char>>::empty());
            assert(chunk_loop(one, sep, size, overlap, Seq::<char>::empty()) == chunk_loop(
                Seq::<Seq<char>>::empty(),
                sep,
                size,
                overlap,
                text,
            ));
            assert(chunk_loop(segs, sep, size, overlap, Seq::<char>::empty())
                == Seq::<Seq<char>>::empty());
        }
        assert(trimmed_nonempty(chunk_loop(segs, sep, size, overlap, Seq::<char>::empty()))
            =~= Seq::<Seq<char>>::empty());
        lemma_split_text_empty(seps.drop_first(), size, overlap);
    }
}

} // verus!
