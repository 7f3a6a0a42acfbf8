//! Text utilities around the chunker: a parsed-document record, sentence
//! segmentation, and line-break replacement for rendered answers.

use vstd::prelude::*;
use vstd::string::*;
use crate::chunker::{
    chars_to_string, split_segments, str_to_chars, string_views, trim_chars, trim_spec,
    trimmed_nonempty, views_of,
};

verus! {

/// A document parsed for ingestion: its source name, the full extracted
/// text, and the chunks it was split into.
#[derive(Debug, Clone)]
pub struct ParsedPdf {
    /// Where the document came from.
    pub filename: String,
    /// The full extracted text.
    pub contents: String,
    /// The ordered chunks of the text.
    pub chunks: Vec<String>,
}

// ---------------------------------------------------------------------------
// Line-break replacement
// ---------------------------------------------------------------------------
/// `s` with every line break replaced by the four characters `<p/>`.
pub open spec fn clean_text_spec(s: Seq<char>) -> Seq<char>
    decreases s.len(),
{
    if s.len() == 0 {
        Seq::empty()
    } else {
        let rest = clean_text_spec(s.drop_last());
        if s.last() == '\n' {
            rest + seq!['<', 'p', '/', '>']
        } else {
            rest.push(s.last())
        }
    }
}

/// Replaces every line break with a paragraph tag, per
/// [`clean_text_spec`].
pub fn clean_text(text: &str) -> (r: String)
    ensures
        r@ == clean_text_spec(text@),
{
    let chars = str_to_chars(text);
    let n: usize = chars.len();
    let mut out: Vec<char> = Vec::new();
    proof {
        assert(text@.take(0int) =~= Seq::<char>::empty());
        assert(out@ =~= clean_text_spec(text@.take(0int)));
    }
    for i in 0..n
        invariant
            n == chars@.len(),
            chars@ == text@,
            out@ == clean_text_spec(text@.take(i as int)),
    {
        let c = chars[i];
        proof {
            assert(text@.take(i + 1).drop_last() =~= text@.take(i as int));
            assert(text@.take(i + 1).last() == text@[i as int]);
        }
        if c == '\n' {
            out.push('<');
            out.push('p');
            out.push('/');
            out.push('>');
            proof {
                assert(out@ =~= clean_text_spec(text@.take(i as int)) + seq!['<', 'p', '/', '>']);
            }
        } else {
            out.push(c);
        }
    }
    proof {
        assert(text@.take(n as int) =~= text@);
    }
    chars_to_string(&out)
}

// ---------------------------------------------------------------------------
// Sentence segmentation
// ---------------------------------------------------------------------------
/// Line and carriage-return breaks read as spaces before segmentation.
pub open spec fn normalized(s: Seq<char>) -> Seq<char> {
    Seq::new(s.len(), |i: int| if s[i] == '\n' || s[i] == '\r' { ' ' } else { s[i] })
}

/// The whitespace-separated words of `s`, in order, without empties.
pub open spec fn nonempty_of(segs: Seq<Seq<char>>) -> Seq<Seq<char>>
    decreases segs.len(),
{
    if segs.len() == 0 {
        Seq::empty()
    } else {
        let rest = nonempty_of(segs.drop_last());
        if segs.last().len() > 0 {
            rest.push(segs.last())
        } else {
            rest
        }
    }
}

/// Words joined by single spaces.
pub open spec fn join_spaces(ws: Seq<Seq<char>>) -> Seq<char>
    decreases ws.len(),
{
    if ws.len() == 0 {
        Seq::empty()
    } else if ws.len() == 1 {
        ws.last()
    } else {
        join_spaces(ws.drop_last()) + seq![' '] + ws.last()
    }
}

/// The text with line breaks read as spaces and every whitespace run
/// collapsed to one space, with no leading or trailing space.
pub open spec fn collapsed(s: Seq<char>) -> Seq<char> {
    join_spaces(nonempty_of(crate::chunker::split_at_sep(normalized(s), seq![' '])))
}

/// Sentence-terminal punctuation.
pub open spec fn is_sentence_end(c: char) -> bool {
    c == '.' || c == '!' || c == '?'
}

/// The pieces of `s` cut at each leftmost occurrence of a sentence-ending
/// character followed by a space; the two matched characters belong to no
/// piece.
pub open spec fn sentence_pieces(s: Seq<char>) -> Seq<Seq<char>>
    decreases s.len(),
{
    if s.len() < 2 {
        seq![s]
    } else if is_sentence_end(s.first()) && s[1] == ' ' {
        seq![Seq::<char>::empty()] + sentence_pieces(s.skip(2))
    } else {
        let rest = sentence_pieces(s.drop_first());
        seq![seq![s.first()] + rest.first()] + rest.drop_first()
    }
}

/// There is always at least one piece.
pub proof fn lemma_pieces_nonempty(s: Seq<char>)
    ensures
        sentence_pieces(s).len() >= 1,
    decreases s.len(),
{
    if s.len() >= 2 {
        if is_sentence_end(s.first()) && s[1] == ' ' {
            lemma_pieces_nonempty(s.skip(2));
        } else {
            lemma_pieces_nonempty(s.drop_first());
        }
    }
}

/// The sentences of a text: whitespace is normalized and collapsed, the
/// text is cut after sentence-terminal punctuation followed by space, and
/// each piece is trimmed, with empty pieces dropped.
pub open spec fn sentences_spec(s: Seq<char>) -> Seq<Seq<char>> {
    trimmed_nonempty(sentence_pieces(collapsed(s)))
}

fn normalize_chars(v: &Vec<char>) -> (r: Vec<char>)
    ensures
        r@ == normalized(v@),
{
    let n: usize = v.len();
    let mut out: Vec<char> = Vec::new();
    for i in 0..n
        invariant
            n == v@.len(),
            out@ == normalized(v@).take(i as int),
    {
        let c = v[i];
        if c == '\n' || c == '\r' {
            out.push(' ');
        } else {
            out.push(c);
        }
        proof {
            assert(out@ =~= normalized(v@).take(i + 1));
        }
    }
    proof {
        assert(normalized(v@).take(n as int) =~= normalized(v@));
    }
    out
}

fn keep_nonempty(segs: Vec<Vec<char>>) -> (r: Vec<Vec<char>>)
    ensures
        views_of(r@) == nonempty_of(views_of(segs@)),
{
    let n: usize = segs.len();
    let mut out: Vec<Vec<char>> = Vec::new();
    proof {
        assert(views_of(segs@).take(0int) =~= Seq::<Seq<char>>::empty());
        assert(views_of(out@) =~= Seq::<Seq<char>>::empty());
    }
    let mut i: usize = 0;
    while i < n
        invariant
            i <= n,
            n == segs@.len(),
            views_of(out@) == nonempty_of(views_of(segs@).take(i as int)),
        decreases n - i,
    {
        let keep = segs[i].len() > 0;
        let ghost prev = out@;
        let ghost sv = segs@[i as int]@;
        if keep {
            let mut w: Vec<char> = Vec::new();
            let m: usize = segs[i].len();
            for j in 0..m
                invariant
                    m == segs@[i as int]@.len(),
                    i < segs@.len(),
                    w@ == segs@[i as int]@.take(j as int),
            {
                w.push(segs[i][j]);
                proof {
                    assert(segs@[i as int]@.take(j as int).push(segs@[i as int]@[j as int])
                        =~= segs@[i as int]@.take(j + 1));
                }
            }
            proof {
                assert(segs@[i as int]@.take(m as int) =~= sv);
            }
            out.push(w);
        }
        proof {
            let all = views_of(segs@);
            assert(all.take(i + 1).drop_last() =~= all.take(i as int));
            assert(all.take(i + 1).last() == sv);
            if keep {
                assert(views_of(out@) =~= views_of(prev).push(sv));
                assert(nonempty_of(all.take(i + 1)) == nonempty_of(all.take(i as int)).push(sv));
            } else {
                assert(nonempty_of(all.take(i + 1)) == nonempty_of(all.take(i as int)));
            }
        }
        i = i + 1;
    }
    proof {
        assert(views_of(segs@).take(n as int) =~= views_of(segs@));
    }
    out
}

fn join_with_spaces(ws: &Vec<Vec<char>>) -> (r: Vec<char>)
    ensures
        r@ == join_spaces(views_of(ws@)),
{
    let n: usize = ws.len();
    let mut out: Vec<char> = Vec::new();
    proof {
        assert(views_of(ws@).take(0int) =~= Seq::<Seq<char>>::empty());
    }
    let mut i: usize = 0;
    while i < n
        invariant
            i <= n,
            n == ws@.len(),
            out@ == join_spaces(views_of(ws@).take(i as int)),
        decreases n - i,
    {
        if i > 0 {
            out.push(' ');
        }
        let m: usize = ws[i].len();
        let ghost base = out@;
        for j in 0..m
            invariant
                m == ws@[i as int]@.len(),
                i < ws@.len(),
                out@ == base + ws@[i as int]@.take(j as int),
        {
            out.push(ws[i][j]);
            proof {
                assert(base + ws@[i as int]@.take(j as int).push(ws@[i as int]@[j as int]) =~= base
                    + ws@[i as int]@.take(j + 1));
                assert((base + ws@[i as int]@.take(j as int)).push(ws@[i as int]@[j as int])
                    =~= base + ws@[i as int]@.take(j as int).push(ws@[i as int]@[j as int]));
            }
        }
        proof {
            let all = views_of(ws@);
            assert(ws@[i as int]@.take(m as int) =~= all[i as int]);
            assert(all.take(i + 1).drop_last() =~= all.take(i as int));
            assert(all.take(i + 1).last() == all[i as int]);
            if i == 0 {
                assert(all.take(1int).len() == 1);
                assert(join_spaces(all.take(1int)) == all[0int]);
                assert(out@ =~= Seq::<char>::empty() + all[0int]);
            } else {
                assert(join_spaces(all.take(i + 1)) == join_spaces(all.take(i as int)) + seq![' ']
                    + all[i as int]);
                assert(out@ =~= join_spaces(all.take(i as int)) + seq![' '] + all[i as int]);
            }
        }
        i = i + 1;
    }
    proof {
        assert(views_of(ws@).take(n as int) =~= views_of(ws@));
    }
    out
}

fn is_sentence_end_exec(c: char) -> (r: bool)
    ensures
        r == is_sentence_end(c),
{
    c == '.' || c == '!' || c == '?'
}

fn split_sentence_pieces(text: &Vec<char>) -> (r: Vec<Vec<char>>)
    ensures
        views_of(r@) == sentence_pieces(text@),
{
    let n: usize = text.len();
    let ghost whole = sentence_pieces(text@);
    let mut pieces: Vec<Vec<char>> = Vec::new();
    let mut cur: Vec<char> = Vec::new();
    let mut i: usize = 0;
    proof {
        assert(text@.skip(0int) =~= text@);
        lemma_pieces_nonempty(text@);
        assert(views_of(pieces@) =~= Seq::<Seq<char>>::empty());
        assert(Seq::<char>::empty() + whole.first() =~= whole.first());
        assert(Seq::<Seq<char>>::empty() + seq![whole.first()] + whole.drop_first() =~= seq![
            whole.first(),
        ] + whole.drop_first());
        assert(seq![whole.first()] + whole.drop_first() =~= whole);
    }
    while i < n
        invariant
            i <= n,
            n == text@.len(),
            whole == sentence_pieces(text@),
            whole == views_of(pieces@) + seq![
                cur@ + sentence_pieces(text@.skip(i as int)).first(),
            ] + sentence_pieces(text@.skip(i as int)).drop_first(),
        decreases n - i,
    {
        let ghost tail = text@.skip(i as int);
        proof {
            lemma_pieces_nonempty(tail);
        }
        if n - i >= 2 && is_sentence_end_exec(text[i]) && text[i + 1] == ' ' {
            proof {
                assert(tail.len() >= 2);
                assert(tail.first() == text@[i as int]);
                assert(tail[1] == text@[i + 1]);
                assert(tail.skip(2) =~= text@.skip(i + 2));
                assert(sentence_pieces(tail) == seq![Seq::<char>::empty()] + sentence_pieces(
                    text@.skip(i + 2),
                ));
                lemma_pieces_nonempty(text@.skip(i + 2));
            }
            let ghost prev = pieces@;
            let ghost cur_old = cur@;
            pieces.push(cur);
            cur = Vec::new();
            proof {
                let after = sentence_pieces(text@.skip(i + 2));
                assert(sentence_pieces(tail).first() == Seq::<char>::empty());
                assert(sentence_pieces(tail).drop_first() =~= after);
                assert(cur_old + Seq::<char>::empty() =~= cur_old);
                assert(views_of(pieces@) =~= views_of(prev).push(cur_old));
                assert(cur@ + after.first() =~= after.first());
                assert(views_of(prev).push(cur_old) + seq![after.first()] + after.drop_first()
                    =~= views_of(prev) + seq![cur_old] + (seq![after.first()]
                    + after.drop_first()));
                assert(seq![after.first()] + after.drop_first() =~= after);
                assert(views_of(prev) + seq![cur_old] + after =~= views_of(prev) + seq![
                    cur_old + sentence_pieces(tail).first(),
                ] + sentence_pieces(tail).drop_first());
            }
            i = i + 2;
        } else {
            proof {
                let tail2 = text@.skip(i + 1);
                if tail.len() >= 2 {
                    assert(tail.first() == text@[i as int]);
                    assert(tail[1] == text@[i + 1]);
                    assert(tail.drop_first() =~= tail2);
                    let rest = sentence_pieces(tail2);
                    lemma_pieces_nonempty(tail2);
                    assert(sentence_pieces(tail) == seq![seq![tail.first()] + rest.first()]
                        + rest.drop_first());
                    assert(cur@ + (seq![text@[i as int]] + rest.first()) =~= cur@.push(
                        text@[i as int],
                    ) + rest.first());
                } else {
                    assert(tail.len() == 1);
                    assert(sentence_pieces(tail) == seq![tail]);
                    assert(tail2.len() == 0);
                    assert(sentence_pieces(tail2) == seq![tail2]);
                    assert(tail =~= seq![text@[i as int]] + tail2);
                    assert(cur@ + tail =~= cur@.push(text@[i as int]) + tail2);
                    assert(sentence_pieces(tail).first() == tail);
                    assert(sentence_pieces(tail).drop_first() =~= Seq::<Seq<char>>::empty());
                    assert(sentence_pieces(tail2).first() == tail2);
                    assert(sentence_pieces(tail2).drop_first() =~= Seq::<Seq<char>>::empty());
                }
            }
            cur.push(text[i]);
            i = i + 1;
        }
    }
    proof {
        assert(text@.skip(n as int) =~= Seq::<char>::empty());
        assert(sentence_pieces(Seq::<char>::empty()) == seq![Seq::<char>::empty()]);
        assert(cur@ + Seq::<char>::empty() =~= cur@);
    }
    let ghost prev = pieces@;
    let ghost cur_old = cur@;
    pieces.push(cur);
    proof {
        assert(views_of(pieces@) =~= views_of(prev).push(cur_old));
        assert(sentence_pieces(Seq::<char>::empty()).drop_first() =~= Seq::<Seq<char>>::empty());
        assert(views_of(prev) + seq![cur_old] + Seq::<Seq<char>>::empty() =~= views_of(prev).push(
            cur_old,
        ));
        assert(views_of(pieces@) =~= whole);
    }
    pieces
}

/// Segments text into sentences: line breaks read as spaces, whitespace
/// runs collapse to one space, and the text is cut after sentence-terminal
/// punctuation followed by whitespace — exactly [`sentences_spec`].
pub fn split_text_into_sentences(text: &str) -> (r: Vec<String>)
    ensures
        string_views(r@) == sentences_spec(text@),
{
    let chars = str_to_chars(text);
    let norm = normalize_chars(&chars);
    let mut space: Vec<char> = Vec::new();
    space.push(' ');
    proof {
        assert(space@ =~= seq![' ']);
    }
    let words = keep_nonempty(split_segments(&norm, &space));
    proof {
        assert(crate::chunker::segments_of(norm@, space@) == crate::chunker::split_at_sep(
            norm@,
            space@,
        ));
    }
    let joined = join_with_spaces(&words);
    let pieces = split_sentence_pieces(&joined);
    let n: usize = pieces.len();
    let mut out: Vec<String> = Vec::new();
    proof {
        assert(views_of(pieces@).take(0int) =~= Seq::<Seq<char>>::empty());
        assert(string_views(out@) =~= Seq::<Seq<char>>::empty());
    }
    for i in 0..n
        invariant
            n == pieces@.len(),
            views_of(pieces@) == sentence_pieces(collapsed(text@)),
            string_views(out@) == trimmed_nonempty(views_of(pieces@).take(i as int)),
    {
        let t = trim_chars(&pieces[i]);
        let ghost tv = t@;
        let ghost prev = out@;
        let keep = t.len() > 0;
        if keep {
            out.push(chars_to_string(&t));
        }
        proof {
            let all = views_of(pieces@);
            assert(all.take(i + 1).drop_last() =~= all.take(i as int));
            assert(all.take(i + 1).last() == all[i as int]);
            assert(all[i as int] == pieces@[i as int]@);
            assert(tv == trim_spec(all[i as int]));
            if keep {
                assert(string_views(out@) =~= string_views(prev).push(tv));
                assert(trimmed_nonempty(all.take(i + 1)) == trimmed_nonempty(
                    all.take(i as int),
                ).push(tv));
            } else {
                assert(trimmed_nonempty(all.take(i + 1)) == trimmed_nonempty(all.take(i as int)));
            }
        }
    }
    proof {
        assert(views_of(pieces@).take(n as int) =~= views_of(pieces@));
    }
    out
}

// ---------------------------------------------------------------------------
// Context and prompt assembly
// ---------------------------------------------------------------------------
/// Parts joined by a separator, in order.
pub open spec fn join_with(parts: Seq<Seq<char>>, sep: Seq<char>) -> Seq<char>
    decreases parts.len(),
{
    if parts.len() == 0 {
        Seq::empty()
    } else if parts.len() == 1 {
        parts.last()
    } else {
        join_with(parts.drop_last(), sep) + sep + parts.last()
    }
}

/// Joins retrieved chunk texts into one context string with the given
/// separator between consecutive chunks.
pub fn join_texts(parts: &Vec<String>, sep: &str) -> (r: String)
    ensures
        r@ == join_with(string_views(parts@), sep@),
{
    let mut out = String::new();
    let n: usize = parts.len();
    proof {
        assert(string_views(parts@).take(0int) =~= Seq::<Seq<char>>::empty());
    }
    for i in 0..n
        invariant
            n == parts@.len(),
            out@ == join_with(string_views(parts@).take(i as int), sep@),
    {
        if i > 0 {
            out.append(sep);
        }
        out.append(parts[i].as_str());
        proof {
            let all = string_views(parts@);
            assert(all.take(i + 1).drop_last() =~= all.take(i as int));
            assert(all.take(i + 1).last() == all[i as int]);
            assert(all[i as int] == parts@[i as int]@);
            if i == 0 {
                assert(all.take(1int).len() == 1);
                assert(join_with(all.take(1int), sep@) == all[0int]);
                assert(out@ =~= Seq::<char>::empty() + all[0int]);
                assert(Seq::<char>::empty() + all[0int] =~= all[0int]);
            } else {
                assert(join_with(all.take(i + 1), sep@) == join_with(all.take(i as int), sep@)
                    + sep@ + all[i as int]);
            }
        }
    }
    proof {
        assert(string_views(parts@).take(n as int) =~= string_views(parts@));
    }
    out
}

/// The prompt sent to the generation model: the question alone, or the
/// retrieved context followed by the question.
pub open spec fn prompt_spec(context: Seq<char>, question: Seq<char>) -> Seq<char> {
    if context.len() == 0 {
        "Human: "@ + question + "\n\nAssistant: "@
    } else {
        "Human: Context ("@ + context + "), "@ + question + "\n\nAssistant: "@
    }
}

/// Builds the generation prompt, per [`prompt_spec`].
pub fn build_prompt(context: &str, question: &str) -> (r: String)
    ensures
        r@ == prompt_spec(context@, question@),
{
    let mut out = String::new();
    if context.is_empty() {
        out.append("Human: ");
        out.append(question);
        out.append("\n\nAssistant: ");
    } else {
        out.append("Human: Context (");
        out.append(context);
        out.append("), ");
        out.append(question);
        out.append("\n\nAssistant: ");
    }
    proof {
        assert(out@ =~= prompt_spec(context@, question@));
    }
    out
}

} // verus!
