use localdb::chunker::DataProcessor;
use localdb::chunker::SourceFile;
use localdb::paths::extract_doc_id;
use localdb::paths::get_facet_from_path;
use localdb::textops::split_paragraphs;
use localdb::textops::split_words;
use localdb::textops::trim;

fn file(path: &str, content: &str) -> SourceFile {
    SourceFile { path: path.to_string(), content: content.to_string() }
}

#[test]
fn process_directory_single_small_file() {
    let processor = DataProcessor::new();
    let files = vec![file("/data/a.txt", "Short text\n")];
    let chunks = processor.process_files("/data", &files);

    assert_eq!(chunks.len(), 1, "one small paragraph becomes one chunk");
    assert_eq!(chunks[0].content.trim(), "Short text");
}

#[test]
fn process_directory_limited_two_files_limit_one() {
    let processor = DataProcessor::new();
    let files = vec![file("/data/a.txt", "alpha bravo"), file("/data/b.txt", "charlie delta")];
    let chunks = processor.process_files_limited("/data", &files, 1);

    // Only chunks from one document should be present.
    let mut doc_ids = std::collections::HashSet::new();
    for c in &chunks {
        doc_ids.insert(c.doc_id.clone());
    }
    assert_eq!(doc_ids.len(), 1, "limited to one source document");
}

#[test]
fn test_token_counting() {
    let processor = DataProcessor::new();
    let text = "This is a test sentence with multiple words.";
    let words = split_words(text);
    assert!(words.len() > 0);
    // Well under the 500-token default budget.
    assert!(processor.count_tokens_within(words.len()));
}

#[test]
fn test_chunking_small_text() {
    let processor = DataProcessor::new();
    let text = "Short text";
    let chunks = processor.chunk_content(text, "test", "test.txt", "category");
    assert_eq!(chunks.len(), 1);
    assert_eq!(chunks[0].content, text);
}

#[test]
fn single_file_ingest_chunk_identity() {
    // One file with one short paragraph: id "a:0", total_chunks 1.
    let processor = DataProcessor::new();
    let files = vec![file("/data/a.txt", "Short text\n")];
    let chunks = processor.process_files("/data", &files);
    assert_eq!(chunks.len(), 1);
    assert_eq!(chunks[0].id, "a:0");
    assert_eq!(chunks[0].doc_id, "a");
    assert_eq!(chunks[0].total_chunks, 1);
    assert_eq!(chunks[0].chunk_index, 0);
    assert_eq!(chunks[0].content, "Short text");
}

#[test]
fn chunk_indices_are_contiguous_and_below_total() {
    let processor = DataProcessor::new();
    let content = "one alpha\n\ntwo bravo\n\nthree charlie";
    let chunks = processor.chunk_content(content, "d", "/data/d.txt", "/misc");
    assert_eq!(chunks.len(), 3);
    for (i, c) in chunks.iter().enumerate() {
        assert_eq!(c.chunk_index, i);
        assert_eq!(c.total_chunks, 3);
        assert!(c.chunk_index < c.total_chunks);
        assert_eq!(c.id, format!("d:{}", i));
    }
    assert_eq!(chunks[0].content, "one alpha");
    assert_eq!(chunks[1].content, "two bravo");
    assert_eq!(chunks[2].content, "three charlie");
}

#[test]
fn long_paragraph_splits_into_overlapping_windows() {
    let processor = DataProcessor::new();
    // 700 one-word tokens: over the 500-token budget, so 300-word windows
    // with a 60-word overlap: starts at 0, 240, 480.
    let words: Vec<String> = (0..700).map(|i| format!("w{}", i)).collect();
    let content = words.join(" ");
    let chunks = processor.chunk_content(&content, "big", "/data/big.txt", "/misc");
    assert_eq!(chunks.len(), 3);
    let c0: Vec<&str> = chunks[0].content.split_whitespace().collect();
    let c1: Vec<&str> = chunks[1].content.split_whitespace().collect();
    let c2: Vec<&str> = chunks[2].content.split_whitespace().collect();
    assert_eq!(c0.len(), 300);
    assert_eq!(c1.len(), 300);
    assert_eq!(c2.len(), 220);
    assert_eq!(c0[0], "w0");
    assert_eq!(c1[0], "w240");
    assert_eq!(c2[0], "w480");
    // No sub-chunk is dropped: the last window ends at the last word.
    assert_eq!(c2[219], "w699");
    for c in &chunks {
        assert_eq!(c.total_chunks, 3);
    }
}

#[test]
fn empty_paragraphs_are_dropped() {
    let processor = DataProcessor::new();
    let content = "  \n\nreal content\n\n   \t\n\n";
    let chunks = processor.chunk_content(content, "d", "/d.txt", "/misc");
    assert_eq!(chunks.len(), 1);
    assert_eq!(chunks[0].content, "real content");
}

#[test]
fn facet_paths_follow_directory_structure() {
    assert_eq!(get_facet_from_path("/data/a/b/x.txt", "/data"), "/a/b");
    assert_eq!(get_facet_from_path("/data/a/x.txt", "/data"), "/a");
    assert_eq!(get_facet_from_path("/data/x.txt", "/data"), "/misc");
}

#[test]
fn doc_id_is_the_file_stem() {
    assert_eq!(extract_doc_id("/data/a.txt"), "a");
    assert_eq!(extract_doc_id("/data/sub/report.v2.txt"), "report.v2");
    assert_eq!(extract_doc_id("plain"), "plain");
}

#[test]
fn text_primitives_match_std_behavior() {
    assert_eq!(trim("  padded text \t\n"), "padded text");
    let ws = split_words(" alpha  bravo\tcharlie\n");
    let expect: Vec<&str> = " alpha  bravo\tcharlie\n".split_whitespace().collect();
    assert_eq!(ws.len(), expect.len());
    for (a, b) in ws.iter().zip(expect.iter()) {
        assert_eq!(a, b);
    }
    let ps = split_paragraphs("a\n\n\nb");
    assert_eq!(ps.len(), 2);
    assert_eq!(ps[0], "a");
    assert_eq!(ps[1], "\nb");
}
