use markdown_ld::blocks::scan_blocks;
use markdown_ld::links::{extract_links, validate_links};
use markdown_ld::headings::extract_headings;
use markdown_ld::model::{DocIndex, FmValue, LinkKind};
use markdown_ld::parse_markdown;
use markdown_ld::reading_time_minutes;

fn doc(text: &str) -> markdown_ld::model::Document {
    parse_markdown(text.as_bytes(), None, None)
}

#[test]
fn empty_document_is_degenerate_but_well_formed() {
    let d = doc("");
    assert_eq!(d.headings.len(), 0);
    assert_eq!(d.links.len(), 0);
    assert_eq!(d.code_blocks.len(), 0);
    assert_eq!(d.tasks.len(), 0);
    assert_eq!(d.backlinks.len(), 0);
    assert_eq!(d.table_of_contents.len(), 0);
    assert_eq!(d.frontmatter, None);
    assert_eq!(d.word_count, 0);
    assert_eq!(d.reading_time_minutes, 0);
}

#[test]
fn reading_time_formula_exact_values() {
    assert_eq!(reading_time_minutes(0), 0);
    assert_eq!(reading_time_minutes(1), 1);
    assert_eq!(reading_time_minutes(199), 1);
    assert_eq!(reading_time_minutes(200), 1);
    assert_eq!(reading_time_minutes(201), 2);
    assert_eq!(reading_time_minutes(400), 2);
    assert_eq!(reading_time_minutes(401), 3);
}

#[test]
fn reading_time_of_parsed_document() {
    let d = doc("one two three\n");
    assert_eq!(d.word_count, 3);
    assert_eq!(d.reading_time_minutes, 1);
}

#[test]
fn block_spans_reconstruct_input() {
    let text = b"# h\n\npara one\npara two\n\n- item\n\n```\ncode\n```\nrest";
    let blocks = scan_blocks(text);
    let mut rebuilt: Vec<u8> = Vec::new();
    let mut prev_end = 0usize;
    for b in &blocks {
        assert_eq!(b.start, prev_end);
        assert!(b.start < b.end);
        rebuilt.extend_from_slice(&text[b.start..b.end]);
        prev_end = b.end;
    }
    assert_eq!(prev_end, text.len());
    assert_eq!(rebuilt, text.to_vec());
}

#[test]
fn heading_extraction_basics() {
    let hs = extract_headings(b"# Top\n\n## Second Level!\n");
    assert_eq!(hs.len(), 2);
    assert_eq!(hs[0].level, 1);
    assert_eq!(hs[0].text, b"Top".to_vec());
    assert_eq!(hs[0].slug, b"top".to_vec());
    assert_eq!(hs[0].start_offset, 0);
    assert_eq!(hs[1].level, 2);
    assert_eq!(hs[1].text, b"Second Level!".to_vec());
    assert_eq!(hs[1].slug, b"second-level".to_vec());
}

#[test]
fn duplicate_slugs_get_numeric_suffixes() {
    let hs = extract_headings(b"# intro\n# intro\n# intro\n");
    assert_eq!(hs[0].slug, b"intro".to_vec());
    assert_eq!(hs[1].slug, b"intro-2".to_vec());
    assert_eq!(hs[2].slug, b"intro-3".to_vec());
}

#[test]
fn slugs_stay_unique_under_literal_collision() {
    let hs = extract_headings(b"# intro\n# intro 2\n# intro\n");
    assert_eq!(hs[0].slug, b"intro".to_vec());
    assert_eq!(hs[1].slug, b"intro-2".to_vec());
    for i in 0..hs.len() {
        for j in 0..hs.len() {
            if i != j {
                assert_ne!(hs[i].slug, hs[j].slug);
            }
        }
    }
}

#[test]
fn seven_markers_are_not_a_heading() {
    let hs = extract_headings(b"####### too deep\n#x also not\n");
    assert_eq!(hs.len(), 0);
}

#[test]
fn toc_nesting_with_level_jump() {
    // levels 1, 3, 2: both later headings attach to the level-1 root,
    // the level jump fabricates no intermediate node.
    let d = doc("# a\n### b\n## c\n");
    assert_eq!(d.headings.len(), 3);
    assert_eq!(d.table_of_contents.len(), 1);
    let root = &d.table_of_contents[0];
    assert_eq!(root.heading, 0);
    assert_eq!(root.children.len(), 2);
    assert_eq!(root.children[0].heading, 1);
    assert_eq!(root.children[0].children.len(), 0);
    assert_eq!(root.children[1].heading, 2);
}

#[test]
fn toc_deep_nesting() {
    let d = doc("# a\n## b\n### c\n## d\n# e\n");
    assert_eq!(d.table_of_contents.len(), 2);
    let a = &d.table_of_contents[0];
    assert_eq!(a.heading, 0);
    assert_eq!(a.children.len(), 2);
    assert_eq!(a.children[0].heading, 1);
    assert_eq!(a.children[0].children.len(), 1);
    assert_eq!(a.children[0].children[0].heading, 2);
    assert_eq!(a.children[1].heading, 3);
    assert_eq!(d.table_of_contents[1].heading, 4);
}

#[test]
fn inline_link_kinds() {
    let ls = extract_links(b"See [a](#sec) and [b](https://x.com) and [c](other.md)\n");
    assert_eq!(ls.len(), 3);
    assert_eq!(ls[0].kind, LinkKind::Anchor);
    assert_eq!(ls[0].target, b"#sec".to_vec());
    assert_eq!(ls[0].display_text, b"a".to_vec());
    assert_eq!(ls[1].kind, LinkKind::External);
    assert_eq!(ls[1].target, b"https://x.com".to_vec());
    assert_eq!(ls[2].kind, LinkKind::Internal);
    assert_eq!(ls[2].target, b"other.md".to_vec());
}

#[test]
fn reference_link_resolves_forward() {
    let ls = extract_links(b"See [foo][f1] first\n\n[f1]: https://e.com\n");
    assert_eq!(ls.len(), 1);
    assert_eq!(ls[0].kind, LinkKind::External);
    assert_eq!(ls[0].target, b"https://e.com".to_vec());
    assert_eq!(ls[0].display_text, b"foo".to_vec());
}

#[test]
fn unclosed_link_is_malformed() {
    let ls = extract_links(b"text [unclosed rest\n");
    assert_eq!(ls.len(), 1);
    assert_eq!(ls[0].kind, LinkKind::Malformed);
    assert_eq!(ls[0].start_offset, 5);
}

#[test]
fn unclosed_target_is_malformed() {
    let ls = extract_links(b"[a](b\n");
    assert_eq!(ls.len(), 1);
    assert_eq!(ls[0].kind, LinkKind::Malformed);
    assert_eq!(ls[0].display_text, b"a".to_vec());
}

#[test]
fn checkbox_without_target_is_no_link() {
    let ls = extract_links(b"- [x] done\n- [ ] todo\n");
    assert_eq!(ls.len(), 0);
}

#[test]
fn code_block_content_is_not_scanned_for_links() {
    let ls = extract_links(b"```\n[a](b.md)\n```\n");
    assert_eq!(ls.len(), 0);
}

#[test]
fn validate_links_flags_malformed_only() {
    let ls = extract_links(b"[ok](x.md) then [bad](oops\n");
    let vs = validate_links(&ls);
    assert_eq!(vs, vec![true, false]);
}

#[test]
fn unterminated_fence_is_one_code_block_to_end_of_input() {
    let text = b"```rust\nlet x = 1;\nmore\n";
    let d = doc(std::str::from_utf8(text).unwrap());
    assert_eq!(d.code_blocks.len(), 1);
    let c = &d.code_blocks[0];
    assert_eq!(c.language, b"rust".to_vec());
    assert_eq!(c.content, b"let x = 1;\nmore\n".to_vec());
    assert_eq!(c.start_offset, 0);
    assert_eq!(c.end_offset, text.len());
    assert_eq!(d.word_count, 0);
}

#[test]
fn closed_fence_strips_fence_lines() {
    let d = doc("```py\na b\n```\nafter\n");
    assert_eq!(d.code_blocks.len(), 1);
    assert_eq!(d.code_blocks[0].language, b"py".to_vec());
    assert_eq!(d.code_blocks[0].content, b"a b\n".to_vec());
    // code words are excluded, the trailing paragraph counts
    assert_eq!(d.word_count, 1);
}

#[test]
fn indented_code_block_kept_verbatim() {
    let d = doc("    let y;\n    more;\n");
    assert_eq!(d.code_blocks.len(), 1);
    assert_eq!(d.code_blocks[0].language, b"".to_vec());
    assert_eq!(d.code_blocks[0].content, b"    let y;\n    more;\n".to_vec());
}

#[test]
fn tasks_checked_state_and_depth() {
    let d = doc("- [x] a\n- [X] b\n- [ ] c\n  - [ ] d\n- plain\n");
    assert_eq!(d.tasks.len(), 4);
    assert!(d.tasks[0].checked);
    assert_eq!(d.tasks[0].text, b"a".to_vec());
    assert_eq!(d.tasks[0].depth, 0);
    assert!(d.tasks[1].checked);
    assert!(!d.tasks[2].checked);
    assert_eq!(d.tasks[3].depth, 1);
    assert_eq!(d.tasks[3].text, b"d".to_vec());
}

#[test]
fn frontmatter_scalars_and_array() {
    let d = doc("---\ntitle: hello world\ncount: 42\nflag: true\noff: false\nnothing: null\ntags:\n- a\n- b\nbroken line\n---\nbody\n");
    let fm = d.frontmatter.expect("frontmatter present");
    assert_eq!(fm.len(), 6);
    assert_eq!(fm[0].key, b"title".to_vec());
    assert_eq!(fm[0].value, FmValue::Str(b"hello world".to_vec()));
    assert_eq!(fm[1].key, b"count".to_vec());
    assert_eq!(fm[1].value, FmValue::Int(42));
    assert_eq!(fm[2].value, FmValue::Bool(true));
    assert_eq!(fm[3].value, FmValue::Bool(false));
    assert_eq!(fm[4].value, FmValue::Null);
    assert_eq!(fm[5].key, b"tags".to_vec());
    assert_eq!(fm[5].value, FmValue::Arr(vec![b"a".to_vec(), b"b".to_vec()]));
}

#[test]
fn empty_frontmatter_block_is_absent() {
    let d = doc("---\n---\nbody\n");
    assert_eq!(d.frontmatter, None);
}

#[test]
fn delimiter_only_at_document_start() {
    let d = doc("body\n---\nmore\n");
    assert_eq!(d.frontmatter, None);
}

#[test]
fn huge_number_stays_a_string() {
    let d = doc("---\nbig: 99999999999999999999999999\n---\nx\n");
    let fm = d.frontmatter.unwrap();
    assert_eq!(
        fm[0].value,
        FmValue::Str(b"99999999999999999999999999".to_vec())
    );
}

#[test]
fn backlink_round_trip() {
    let index = DocIndex { entries: vec![(b"other.md".to_vec(), 42)] };
    let d = parse_markdown(b"See [other](other.md)\n", Some(7), Some(&index));
    assert_eq!(d.backlinks.len(), 1);
    assert_eq!(d.backlinks[0].source, 7);
    assert_eq!(d.backlinks[0].target, 42);
    assert_eq!(d.backlinks[0].link_target, b"other.md".to_vec());
}

#[test]
fn repeated_identical_links_collapse_to_one_edge() {
    let index = DocIndex { entries: vec![(b"other.md".to_vec(), 42)] };
    let d = parse_markdown(
        b"[a](other.md) and [b](other.md)\n",
        Some(7),
        Some(&index),
    );
    assert_eq!(d.backlinks.len(), 1);
}

#[test]
fn no_index_means_no_backlinks() {
    let d = parse_markdown(b"See [other](other.md)\n", Some(7), None);
    assert_eq!(d.backlinks.len(), 0);
    let index = DocIndex { entries: vec![(b"other.md".to_vec(), 42)] };
    let d2 = parse_markdown(b"See [other](other.md)\n", None, Some(&index));
    assert_eq!(d2.backlinks.len(), 0);
}

#[test]
fn unresolved_and_external_links_make_no_edges() {
    let index = DocIndex { entries: vec![(b"known.md".to_vec(), 1)] };
    let d = parse_markdown(
        b"[a](unknown.md) [b](https://x.com) [c](#anchor)\n",
        Some(7),
        Some(&index),
    );
    assert_eq!(d.backlinks.len(), 0);
}

#[test]
fn index_resolve_first_match_wins() {
    let index = DocIndex {
        entries: vec![(b"a.md".to_vec(), 1), (b"a.md".to_vec(), 2)],
    };
    assert_eq!(index.resolve(&b"a.md".to_vec()), Some(1));
    assert_eq!(index.resolve(&b"b.md".to_vec()), None);
}

#[test]
fn combined_example_document() {
    let text = "# Title\n\nSee [other](other.md) and [ext](https://x.com).\n- [x] done\n- [ ] todo\n";
    let d = doc(text);
    assert_eq!(d.headings.len(), 1);
    assert_eq!(d.headings[0].level, 1);
    assert_eq!(d.headings[0].slug, b"title".to_vec());
    assert_eq!(d.links.len(), 2);
    assert_eq!(d.links[0].kind, LinkKind::Internal);
    assert_eq!(d.links[0].target, b"other.md".to_vec());
    assert_eq!(d.links[1].kind, LinkKind::External);
    assert_eq!(d.tasks.len(), 2);
    assert!(d.tasks[0].checked);
    assert!(!d.tasks[1].checked);
    // prose tokens: Title / See, [other](other.md), and, [ext](https://x.com). / done, todo
    assert_eq!(d.word_count, 7);
    assert_eq!(d.reading_time_minutes, 1);
}

#[test]
fn engine_is_idempotent() {
    let text = "---\nk: v\n---\n# a\n## b\n\npara [l](x.md)\n- [x] t\n```\ncode\n```\n";
    let index = DocIndex { entries: vec![(b"x.md".to_vec(), 9)] };
    let d1 = parse_markdown(text.as_bytes(), Some(3), Some(&index));
    let d2 = parse_markdown(text.as_bytes(), Some(3), Some(&index));
    assert_eq!(d1, d2);
}

#[test]
fn many_duplicates_get_multi_digit_suffixes() {
    let mut text = String::new();
    for _ in 0..11 {
        text.push_str("# intro\n");
    }
    let hs = extract_headings(text.as_bytes());
    assert_eq!(hs[9].slug, b"intro-10".to_vec());
    assert_eq!(hs[10].slug, b"intro-11".to_vec());
}

#[test]
fn scheme_without_slashes_is_external() {
    let ls = extract_links(b"[m](mailto:a@b.c)\n");
    assert_eq!(ls[0].kind, LinkKind::External);
}

#[test]
fn carriage_returns_are_trimmed_from_heading_text() {
    let hs = extract_headings(b"# Title\r\n");
    assert_eq!(hs[0].text, b"Title".to_vec());
    assert_eq!(hs[0].slug, b"title".to_vec());
}

#[test]
fn blank_heading_text_still_gets_unique_slugs() {
    let hs = extract_headings(b"#\t\n# \n");
    assert_eq!(hs.len(), 2);
    assert_ne!(hs[0].slug, hs[1].slug);
}

#[test]
fn links_are_extracted_from_heading_text() {
    let ls = extract_links(b"# See [a](b.md)\n");
    assert_eq!(ls.len(), 1);
    assert_eq!(ls[0].kind, LinkKind::Internal);
    assert_eq!(ls[0].target, b"b.md".to_vec());
}

#[test]
fn unterminated_frontmatter_runs_to_end_of_input() {
    let d = doc("---\nkey: v\n");
    let fm = d.frontmatter.expect("frontmatter present");
    assert_eq!(fm.len(), 1);
    assert_eq!(fm[0].key, b"key".to_vec());
    assert_eq!(fm[0].value, FmValue::Str(b"v".to_vec()));
    assert_eq!(d.word_count, 0);
}

#[test]
fn immediately_closed_fence_has_empty_content() {
    let d = doc("```\n```\n");
    assert_eq!(d.code_blocks.len(), 1);
    assert_eq!(d.code_blocks[0].content, b"".to_vec());
    assert_eq!(d.code_blocks[0].language, b"".to_vec());
}

#[test]
fn word_count_excludes_frontmatter() {
    let d = doc("---\ntitle: many words here today\n---\none two\n");
    assert_eq!(d.word_count, 2);
}
