use breadchunks::node::{ChunkTask, TaskInput};
use breadchunks::tokens::is_whitespace;
use breadchunks::{
    chunk, default_length_counter, derive_t, merge_phase2, merge_phase3, merge_text_len,
    restore_code_placeholders, set_length, split_by_headers, update_length_after_absorb,
    update_length_after_merge, Chunk, ChunkOptions,
};

const DOCS: [&str; 8] = [
    "",
    "   \n\n  ",
    "Intro.\n\n# H1\n\nBody one.\n\nBody two.\n\n## H2\n\nChild.\n\n### H3\n\nGrandchild.",
    "# A\n\n```\n# not a heading\n```\n\nText `# inline` here.\n\n## B\n\nMore.",
    "## Starts deep\n\nx\n\n# Top\n\ny\n\n###### Six\n\nz\n\n####### Seven\n\nw",
    "\u{E000}CODE_BLOCK_0\u{E000}\n\n```\ncode\n```\n\n___CODE_BLOCK_0___",
    "# T\n\n日本語 の テキスト\n\n## Ü\n\n→ arrows\t and\ttabs",
    "#hashtag\n\n##no space\n\n# Real\n\nbody",
];

fn all_options() -> Vec<Option<ChunkOptions>> {
    let mut v = vec![None];
    for phase in 1..=3u32 {
        for (min, max) in [(1u32, 10u32), (10, 40), (512, 3072), (10000, 100000)] {
            v.push(Some(ChunkOptions {
                min_length: Some(min),
                max_length: Some(max),
                phase: Some(phase),
                title: None,
            }));
            v.push(Some(ChunkOptions {
                min_length: Some(min),
                max_length: Some(max),
                phase: Some(phase),
                title: Some("Doc".to_string()),
            }));
        }
    }
    v
}

fn breadcrumb_of(headers: &[Option<String>]) -> String {
    headers
        .iter()
        .filter_map(|h| h.clone())
        .collect::<Vec<_>>()
        .join(" > ")
}

fn phase1_count(doc: &str, options: &Option<ChunkOptions>) -> usize {
    let title = options.as_ref().and_then(|o| o.title.clone());
    chunk(
        doc,
        Some(ChunkOptions {
            phase: Some(1),
            title,
            ..Default::default()
        }),
    )
    .len()
}

#[test]
fn every_chunk_has_embedding_length() {
    for doc in DOCS {
        for options in all_options() {
            for c in chunk(doc, options.clone()) {
                let full = format!("{}\n\n{}", c.breadcrumb, c.text);
                assert_eq!(c.length, default_length_counter(&full), "{doc:?} {options:?}");
            }
        }
    }
}

#[test]
fn no_chunk_text_is_blank() {
    for doc in DOCS {
        for options in all_options() {
            for c in chunk(doc, options.clone()) {
                assert!(c.text.chars().any(|ch| !ch.is_whitespace()), "{doc:?}");
            }
        }
    }
}

#[test]
fn breadcrumb_follows_heading_stack() {
    for doc in DOCS {
        for options in all_options() {
            for c in chunk(doc, options.clone()) {
                assert_eq!(c.headers.len(), 6);
                assert_eq!(c.breadcrumb, breadcrumb_of(&c.headers));
                assert!(c.level <= 6);
                let slot = if c.level == 0 { 0 } else { c.level as usize - 1 };
                assert_eq!(c.header, c.headers[slot]);
            }
        }
    }
}

#[test]
fn merging_never_adds_chunks() {
    for doc in DOCS {
        for options in all_options() {
            let n = chunk(doc, options.clone()).len();
            assert!(n <= phase1_count(doc, &options), "{doc:?} {options:?}");
        }
    }
}

#[test]
fn phase1_texts_are_pieces_of_the_document() {
    for doc in DOCS {
        for title in [None, Some("Doc")] {
            for c in split_by_headers(doc, title) {
                assert!(doc.contains(c.text.as_str()), "{:?} not in {doc:?}", c.text);
            }
        }
    }
}

#[test]
fn headings_inside_code_are_not_headings() {
    let chunks = split_by_headers(DOCS[3], None);
    let headers: Vec<String> = chunks.iter().filter_map(|c| c.header.clone()).collect();
    assert!(headers.iter().all(|h| !h.contains("not a heading")));
    assert!(headers.iter().all(|h| !h.contains("inline")));
    assert_eq!(chunks[0].text, "```\n# not a heading\n```");
    assert_eq!(chunks[1].text, "Text `# inline` here.");
}

#[test]
fn phase2_keeps_all_text() {
    for doc in DOCS {
        for (min, max) in [(1usize, 10usize), (10, 40), (10000, 100000)] {
            let p1 = split_by_headers(doc, None);
            let before: Vec<String> = p1.iter().map(|c| c.text.clone()).collect();
            let p2 = merge_phase2(p1, min, max);
            let after: Vec<String> = p2.iter().map(|c| c.text.clone()).collect();
            assert_eq!(before.join("\n\n"), after.join("\n\n"));
        }
    }
}

#[test]
fn phase2_merges_same_breadcrumb_exactly() {
    let p1 = split_by_headers("# A\n\none\n\ntwo\n\n## B\n\nthree\n\nfour", None);
    assert_eq!(p1.len(), 4);
    let p2 = merge_phase2(p1, 10000, 100000);
    assert_eq!(p2.len(), 2);
    assert_eq!(p2[0].text, "one\n\ntwo");
    assert_eq!(p2[0].breadcrumb, "A");
    assert_eq!(p2[0].length, default_length_counter("A\n\none\n\ntwo"));
    assert_eq!(p2[1].text, "three\n\nfour");
    assert_eq!(p2[1].breadcrumb, "A > B");
}

#[test]
fn phase3_absorbs_with_heading_line() {
    let p1 = split_by_headers("# A\n\none\n\n### C\n\ntwo", None);
    let p3 = merge_phase3(p1, 10000, 100000);
    assert_eq!(p3.len(), 1);
    assert_eq!(p3[0].text, "one\n\n### C\n\ntwo");
    assert_eq!(p3[0].level, 1);
    assert_eq!(p3[0].breadcrumb, "A");
    assert_eq!(p3[0].length, default_length_counter("A\n\none\n\n### C\n\ntwo"));
}

#[test]
fn phase3_caps_heading_marks_at_six() {
    let c = |level: u32, header: &str, headers: Vec<Option<String>>, text: &str| {
        let mut c = Chunk {
            level,
            header: Some(header.to_string()),
            headers,
            breadcrumb: "P".to_string(),
            text: text.to_string(),
            length: 0,
        };
        set_length(&mut c);
        c
    };
    let mut hs = vec![Some("P".to_string()), None, None, None, None, None];
    let parent = c(1, "P", hs.clone(), "p");
    hs[1] = Some("Q".to_string());
    let child = c(9, "Q", hs, "q");
    let out = merge_phase3(vec![parent, child], 10000, 100000);
    assert_eq!(out.len(), 1);
    assert_eq!(out[0].text, "p\n\n###### Q\n\nq");
}

#[test]
fn is_whitespace_matches_std() {
    for n in 0..=0x10FFFFu32 {
        if let Some(ch) = char::from_u32(n) {
            assert_eq!(is_whitespace(ch), ch.is_whitespace(), "{n:#x}");
        }
    }
}

#[test]
fn counter_exact_values() {
    assert_eq!(default_length_counter("\u{3000}a\u{2028}\u{2029}b\u{85}"), 3);
    assert_eq!(default_length_counter("a\u{200B}b"), 3);
    assert_eq!(default_length_counter(" x  y  z "), 5);
}

#[test]
fn length_helpers_exact_values() {
    assert_eq!(derive_t(10, 0), 10);
    assert_eq!(derive_t(10, 3), 6);
    assert_eq!(derive_t(3, 3), 0);
    assert_eq!(derive_t(2, 3), 0);
    assert_eq!(merge_text_len(0, 4), 4);
    assert_eq!(merge_text_len(4, 0), 4);
    assert_eq!(merge_text_len(2, 3), 6);
    // "A\n\none" (5) merged with "A\n\ntwo" (5): "A one two" is 9.
    assert_eq!(update_length_after_merge(5, 1, 5, 1), 9);
    assert_eq!(
        update_length_after_merge(5, 1, 5, 1),
        default_length_counter("A\n\none\n\ntwo")
    );
    // "A\n\none" absorbing "A > C\n\ntwo" under "### C".
    assert_eq!(
        update_length_after_absorb(5, 1, 9, 5, "###", "C"),
        default_length_counter("A\n\none\n\n### C\n\ntwo")
    );
}

#[test]
fn restore_edge_cases() {
    let blocks = vec!["X".to_string(), "Y".to_string()];
    assert_eq!(restore_code_placeholders("\u{E000}CODE_BLOCK_1\u{E000}", &blocks), "Y");
    assert_eq!(restore_code_placeholders("\u{E000}CODE_BLOCK_+0\u{E000}", &blocks), "X");
    assert_eq!(restore_code_placeholders("\u{E000}CODE_BLOCK_01\u{E000}", &blocks), "Y");
    assert_eq!(
        restore_code_placeholders("\u{E000}CODE_BLOCK_2\u{E000}", &blocks),
        "\u{E000}CODE_BLOCK_2\u{E000}"
    );
    assert_eq!(
        restore_code_placeholders("\u{E000}CODE_BLOCK_\u{E000}", &blocks),
        "\u{E000}CODE_BLOCK_\u{E000}"
    );
    assert_eq!(
        restore_code_placeholders("\u{E000}CODE_BLOCK_99999999999999999999999\u{E000}", &blocks),
        "\u{E000}CODE_BLOCK_99999999999999999999999\u{E000}"
    );
    assert_eq!(
        restore_code_placeholders("a\u{E000}CODE_BLOCK_0\u{E000}b\u{E000}c", &blocks),
        "aXb\u{E000}c"
    );
    assert_eq!(
        restore_code_placeholders("\u{E000}CODE_BLOCK_0\u{E000}", &[]),
        "\u{E000}CODE_BLOCK_0\u{E000}"
    );
}

#[test]
fn placeholders_in_documents_are_left_alone() {
    let chunks = chunk(DOCS[5], None);
    assert_eq!(chunks.len(), 1);
    assert_eq!(
        chunks[0].text,
        "\u{E000}CODE_BLOCK_0\u{E000}\n\n```\ncode\n```\n\n___CODE_BLOCK_0___"
    );
}

#[test]
fn compute_decodes_and_chunks() {
    let mut task = ChunkTask {
        inputs: vec![
            TaskInput::Bytes("# T\n\nbody →".as_bytes().to_vec()),
            TaskInput::Text("plain".to_string()),
        ],
        options: None,
    };
    let out = task.compute().unwrap();
    assert!(task.inputs.is_empty());
    assert_eq!(out.len(), 2);
    assert_eq!(out[0][0].text, "body →");
    assert_eq!(out[0][0].breadcrumb, "T");
    assert_eq!(out[0][0].length, 8);
    assert_eq!(out[1][0].text, "plain");
}

#[test]
fn compute_rejects_invalid_utf8() {
    let mut task = ChunkTask {
        inputs: vec![
            TaskInput::Text("fine".to_string()),
            TaskInput::Bytes(vec![b'a', 0xff, b'b']),
        ],
        options: None,
    };
    let err = task.compute().unwrap_err();
    assert_eq!(
        err,
        "Buffer is not valid UTF-8: invalid utf-8 sequence of 1 bytes from index 1"
    );
}

#[test]
fn compute_reports_the_first_invalid_input() {
    let mut task = ChunkTask {
        inputs: vec![
            TaskInput::Bytes(vec![0xff]),
            TaskInput::Bytes(vec![b'x', 0xc3]),
        ],
        options: None,
    };
    let err = task.compute().unwrap_err();
    assert_eq!(
        err,
        "Buffer is not valid UTF-8: invalid utf-8 sequence of 1 bytes from index 0"
    );
    let mut task = ChunkTask {
        inputs: vec![TaskInput::Bytes(vec![b'x', 0xc3])],
        options: None,
    };
    let err = task.compute().unwrap_err();
    assert_eq!(
        err,
        "Buffer is not valid UTF-8: incomplete utf-8 byte sequence from index 1"
    );
}

#[test]
fn absorption_keeps_to_max_length() {
    let chunks = chunk(
        "# A\n\nx\n\n###### B\n\ny",
        Some(ChunkOptions {
            max_length: Some(10),
            ..Default::default()
        }),
    );
    assert_eq!(chunks.len(), 2);
    assert_eq!(chunks[0].text, "x");
    assert_eq!(chunks[1].text, "y");
    assert!(chunks.iter().all(|c| c.length <= 10));
}

fn plain(breadcrumb: &str, level: u32, text: &str) -> Chunk {
    let mut c = Chunk {
        level,
        header: None,
        headers: vec![None; 6],
        breadcrumb: breadcrumb.to_string(),
        text: text.to_string(),
        length: 0,
    };
    set_length(&mut c);
    c
}

#[test]
fn phase2_merge_keeps_to_max_length() {
    let out = merge_phase2(vec![plain("", 0, "a"), plain("", 0, "b")], 100, 2);
    assert_eq!(out.len(), 2);
    let out = merge_phase2(vec![plain("", 0, "a"), plain("", 0, "b")], 100, 3);
    assert_eq!(out.len(), 1);
    assert_eq!(out[0].length, 3);
}

#[test]
fn phase3_absorb_keeps_to_max_length() {
    let out = merge_phase3(vec![plain("", 1, "x"), plain("", 2, "y")], 100, 2);
    assert_eq!(out.len(), 2);
    let out = merge_phase3(vec![plain("", 1, "x"), plain("", 2, "y")], 100, 6);
    assert_eq!(out.len(), 1);
    assert_eq!(out[0].text, "x\n\n## \n\ny");
    assert_eq!(out[0].length, 6);
}

#[test]
fn merged_chunks_never_exceed_max_length() {
    for doc in DOCS {
        for options in all_options() {
            let title = options.as_ref().and_then(|o| o.title.clone());
            let p1: Vec<String> = split_by_headers(doc, title.as_deref())
                .into_iter()
                .map(|c| c.text)
                .collect();
            let max = options
                .as_ref()
                .and_then(|o| o.max_length)
                .unwrap_or(3072) as usize;
            for c in chunk(doc, options.clone()) {
                assert!(c.length <= max || p1.contains(&c.text), "{doc:?} {options:?}");
            }
        }
    }
}

#[test]
fn phase2_is_idempotent() {
    for doc in DOCS {
        for (min, max) in [(1usize, 10usize), (10, 40), (512, 3072), (10000, 100000)] {
            let once = merge_phase2(split_by_headers(doc, None), min, max);
            let twice = merge_phase2(once.clone(), min, max);
            assert_eq!(format!("{once:?}"), format!("{twice:?}"));
        }
    }
}

#[test]
fn leading_h1_ignores_title() {
    for doc in ["# Head\n\nbody\n\n## Sub\n\nx", "\n# Head\n\nbody", "# H"] {
        for phase in 1..=3u32 {
            let with = chunk(
                doc,
                Some(ChunkOptions {
                    phase: Some(phase),
                    title: Some("T".to_string()),
                    ..Default::default()
                }),
            );
            let without = chunk(
                doc,
                Some(ChunkOptions {
                    phase: Some(phase),
                    ..Default::default()
                }),
            );
            assert_eq!(format!("{with:?}"), format!("{without:?}"));
        }
    }
    let with = chunk(
        "## Sub\n\nx",
        Some(ChunkOptions {
            title: Some("T".to_string()),
            ..Default::default()
        }),
    );
    assert_eq!(with[0].breadcrumb, "T > Sub");
}
