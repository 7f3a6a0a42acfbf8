//! Tests of the text chunker, the sentence splitter, and text cleaning.

use ragstore::chunker::TextSplitter;
use ragstore::text::{build_prompt, clean_text, join_texts, split_text_into_sentences, ParsedPdf};

#[test]
fn empty_text_yields_no_chunks() {
    let splitter = TextSplitter::new(10, 2);
    let chunks = splitter.split_text("");
    assert!(chunks.is_empty());
}

#[test]
fn single_character_text() {
    let splitter = TextSplitter::new(1, 0);
    let chunks = splitter.split_text("x");
    assert_eq!(chunks, vec!["x".to_string()]);
}

#[test]
fn whitespace_only_text_yields_no_chunks() {
    let splitter = TextSplitter::new(4, 1);
    let chunks = splitter.split_text("   \n\n \t ");
    assert!(chunks.is_empty());
}

#[test]
fn paragraphs_flush_at_size_bound() {
    let splitter = TextSplitter::new(10, 0);
    let chunks = splitter.split_text("aaaa\n\nbbbb\n\ncccc\n\ndddd");
    assert_eq!(
        chunks,
        vec!["aaaa\n\nbbbb".to_string(), "cccc\n\ndddd".to_string()]
    );
    for c in &chunks {
        assert!(c.chars().count() <= 10);
    }
}

#[test]
fn chunk_sizes_stay_within_bound() {
    // Size bound: every chunk fits within the configured size whenever
    // every segment fits together with the overlap seed and a separator.
    for (size, overlap) in [(10usize, 2usize), (12, 5), (9, 0)] {
        let splitter = TextSplitter::new(size, overlap);
        let chunks = splitter.split_text("one\n\ntwo\n\nthree\n\nfour\n\nfive\n\nsix");
        assert!(!chunks.is_empty());
        for c in &chunks {
            assert!(c.chars().count() <= size, "chunk {:?} exceeds {}", c, size);
        }
    }
    // A segment that cannot fit behind the seed and separator ("three",
    // five characters, against size 6) may push one chunk past the size,
    // but never past seed + separator + segment.
    let splitter = TextSplitter::new(6, 0);
    let chunks = splitter.split_text("one\n\ntwo\n\nthree\n\nfour\n\nfive\n\nsix");
    for c in &chunks {
        assert!(c.chars().count() <= 0 + 2 + 5);
    }
}

#[test]
fn consecutive_chunks_share_the_overlap() {
    let splitter = TextSplitter::new(5, 2);
    let chunks = splitter.split_text("abc\n\nde\n\nfgh");
    assert_eq!(
        chunks,
        vec!["abc".to_string(), "bc\n\nde".to_string(), "de\n\nfgh".to_string()]
    );
    for w in chunks.windows(2) {
        let first: Vec<char> = w[0].chars().collect();
        let second: Vec<char> = w[1].chars().collect();
        assert!(first.len() >= 2);
        assert_eq!(first[first.len() - 2..], second[..2]);
    }
}

#[test]
fn first_successful_separator_wins_globally() {
    // A known limitation, kept deliberately: a text with no paragraph
    // break is one segment for the first separator, so it comes back as a
    // single chunk even past the size bound.
    let splitter = TextSplitter::new(10, 0);
    let chunks = splitter.split_text("aaa bbb ccc ddd eee");
    assert_eq!(chunks, vec!["aaa bbb ccc ddd eee".to_string()]);
}

#[test]
fn chunks_are_trimmed_and_empties_dropped() {
    let splitter = TextSplitter::new(10, 0);
    let chunks = splitter.split_text("  hi\n\n   ");
    assert_eq!(chunks, vec!["hi".to_string()]);
}

#[test]
fn splitter_fields_are_as_configured() {
    let splitter = TextSplitter::new(600, 120);
    assert_eq!(splitter.chunk_size, 600);
    assert_eq!(splitter.chunk_overlap, 120);
    assert_eq!(splitter.separators.len(), 5);
    assert_eq!(splitter.separators[0], "\n\n");
    assert_eq!(splitter.separators[4], "");
}

#[test]
fn sentences_split_at_terminal_punctuation() {
    let sentences = split_text_into_sentences("Hello world. How are you?\nFine, thanks!  Bye.");
    assert_eq!(
        sentences,
        vec![
            "Hello world".to_string(),
            "How are you".to_string(),
            "Fine, thanks".to_string(),
            "Bye.".to_string(),
        ]
    );
}

#[test]
fn sentences_of_empty_text() {
    let sentences = split_text_into_sentences("");
    assert!(sentences.is_empty());
}

#[test]
fn clean_text_replaces_line_breaks() {
    assert_eq!(clean_text("a\nb\n"), "a<p/>b<p/>");
    assert_eq!(clean_text("no breaks"), "no breaks");
    assert_eq!(clean_text(""), "");
}

#[test]
fn parsed_pdf_holds_its_parts() {
    let splitter = TextSplitter::new(10, 0);
    let text = "aaaa\n\nbbbb";
    let parsed = ParsedPdf {
        filename: "doc.pdf".to_string(),
        contents: text.to_string(),
        chunks: splitter.split_text(text),
    };
    assert_eq!(parsed.filename, "doc.pdf");
    assert_eq!(parsed.chunks, vec!["aaaa\n\nbbbb".to_string()]);
}

#[test]
fn context_joins_with_the_stable_separator() {
    let parts = vec!["one".to_string(), "two".to_string(), "three".to_string()];
    assert_eq!(join_texts(&parts, "\n--\n"), "one\n--\ntwo\n--\nthree");
    assert_eq!(join_texts(&vec!["solo".to_string()], "\n--\n"), "solo");
    assert_eq!(join_texts(&Vec::new(), "\n--\n"), "");
}

#[test]
fn prompt_includes_context_only_when_present() {
    assert_eq!(
        build_prompt("", "What color?"),
        "Human: What color?\n\nAssistant: "
    );
    assert_eq!(
        build_prompt("ctx", "What color?"),
        "Human: Context (ctx), What color?\n\nAssistant: "
    );
}
