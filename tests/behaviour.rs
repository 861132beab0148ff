use ob_image_vector_rs::api::{default_limit, IndexRequest};
use ob_image_vector_rs::chunker::{chunk_markdown, extract_headers};
use ob_image_vector_rs::db::PointType;
use ob_image_vector_rs::image_context::{
    extract_context, extract_image_links, extract_section_context, ImageSyntaxType,
};
use ob_image_vector_rs::search::image_sections;
use ob_image_vector_rs::splitter::recursive_split;

#[test]
fn empty_document_gives_no_chunks() {
    assert!(chunk_markdown("").is_empty());
}

#[test]
fn two_headings_give_two_chunks() {
    let chunks = chunk_markdown("# A\n\nfoo\n\n## B\n\nbar\n");
    assert_eq!(chunks.len(), 2);
    assert_eq!(chunks[0].header_path, vec!["# A"]);
    assert_eq!(chunks[0].content, "# A\n\nfoo\n\n");
    assert_eq!((chunks[0].start_pos, chunks[0].end_pos), (0, 10));
    assert_eq!(chunks[1].header_path, vec!["# A", "## B"]);
    assert_eq!(chunks[1].content, "## B\n\nbar\n");
    assert_eq!((chunks[1].start_pos, chunks[1].end_pos), (10, 20));
}

#[test]
fn header_free_document_is_cut_in_three() {
    let text = "A".repeat(2000);
    let chunks = chunk_markdown(&text);
    let lens: Vec<usize> = chunks.iter().map(|c| c.content.len()).collect();
    assert_eq!(lens, vec![800, 800, 400]);
    let joined: String = chunks.iter().map(|c| c.content.as_str()).collect();
    assert_eq!(joined, text);
    assert_eq!((chunks[1].start_pos, chunks[1].end_pos), (800, 1600));
    assert_eq!((chunks[2].start_pos, chunks[2].end_pos), (1600, 2000));
    assert!(chunks.iter().all(|c| c.header_path.is_empty()));
}

#[test]
fn embed_style_link_at_start() {
    let links = extract_image_links("![[a.png]] text");
    assert_eq!(links.len(), 1);
    assert_eq!(links[0].syntax_type, ImageSyntaxType::Obsidian);
    assert_eq!(links[0].path, "a.png");
    assert_eq!(links[0].position, 0);
    assert_eq!(links[0].context, "");
}

#[test]
fn inline_style_link_after_text() {
    let links = extract_image_links("text ![alt](b.jpg)");
    assert_eq!(links.len(), 1);
    assert_eq!(links[0].syntax_type, ImageSyntaxType::Markdown);
    assert_eq!(links[0].path, "b.jpg");
    assert_eq!(links[0].position, 5);
}

#[test]
fn overlapping_references_are_both_kept() {
    let links = extract_image_links("![a](![[b]])");
    assert_eq!(links.len(), 2);
    assert_eq!(links[0].syntax_type, ImageSyntaxType::Markdown);
    assert_eq!(links[0].path, "![[b]]");
    assert_eq!(links[0].position, 0);
    assert_eq!(links[1].syntax_type, ImageSyntaxType::Obsidian);
    assert_eq!(links[1].path, "b");
    assert_eq!(links[1].position, 5);
}

#[test]
fn malformed_references_are_not_links() {
    assert!(extract_image_links("![[]] ![x]() ![x] (y) ![[a]").is_empty());
}

#[test]
fn link_positions_count_bytes() {
    let links = extract_image_links("é![[p.png]]");
    assert_eq!(links[0].position, 2);
}

#[test]
fn section_stops_at_sibling_heading() {
    let doc = "# A\n\nx\n\n## B\n\ny\n\n## C\n\nz\n";
    let offset = doc.find('y').unwrap();
    let section = extract_section_context(doc, offset);
    assert_eq!(section, "## B\n\ny\n\n");
    assert!(section.contains("## B") && section.contains('y'));
    assert!(!section.contains("## C") && !section.contains('z'));
}

#[test]
fn section_keeps_deeper_headings() {
    let doc = "## A\nx\n### B\ny\n## C\n";
    let section = extract_section_context(doc, doc.find('x').unwrap());
    assert_eq!(section, "## A\nx\n### B\ny\n");
}

#[test]
fn section_without_preceding_heading_is_whole_document() {
    let doc = "intro\n# A\nbody\n";
    assert_eq!(extract_section_context(doc, 2), doc);
    assert_eq!(extract_section_context(doc, 0), doc);
}

#[test]
fn context_window_is_clamped() {
    assert_eq!(extract_context("abcdefghij", 5, 2), "defg");
    assert_eq!(extract_context("abcdefghij", 1, 3), "abcd");
    assert_eq!(extract_context("abcdefghij", 9, 5), "efghij");
    assert_eq!(extract_context("abcdefghij", 50, 3), "hij");
    assert_eq!(extract_context("abcdef", 6, 2), "ef");
    assert_eq!(extract_context("abcdef", 0, 2), "ab");
    assert_eq!(extract_context("", 3, 3), "");
}

#[test]
fn context_window_counts_characters() {
    assert_eq!(extract_context("é中x", 5, 1), "中x");
    assert_eq!(extract_context("é中x", 2, 1), "é中");
}

#[test]
fn paths_follow_open_headings() {
    let chunks = chunk_markdown("# A\n## B\n### C\n## D\ntext\n# E\n");
    let paths: Vec<Vec<String>> = chunks.iter().map(|c| c.header_path.clone()).collect();
    assert_eq!(paths.len(), 5);
    assert_eq!(paths[0], vec!["# A"]);
    assert_eq!(paths[1], vec!["# A", "## B"]);
    assert_eq!(paths[2], vec!["# A", "## B", "### C"]);
    assert_eq!(paths[3], vec!["# A", "## D"]);
    assert_eq!(paths[4], vec!["# E"]);
    assert_eq!(chunks[3].content, "## D\ntext\n");
}

#[test]
fn deeper_heading_after_shallower_keeps_parent() {
    let chunks = chunk_markdown("### Deep\nx\n# Top\ny\n#### Sub\nz\n");
    assert_eq!(chunks[0].header_path, vec!["### Deep"]);
    assert_eq!(chunks[1].header_path, vec!["# Top"]);
    assert_eq!(chunks[2].header_path, vec!["# Top", "#### Sub"]);
}

#[test]
fn long_segment_is_cut_under_its_path() {
    let body = "word ".repeat(400);
    let doc = format!("# T\n## S\n{}\n", body);
    let chunks = chunk_markdown(&doc);
    assert!(chunks.len() > 2);
    assert_eq!(chunks[0].content, "# T\n");
    for c in &chunks[1..] {
        assert!(c.content.len() <= 800);
        assert_eq!(c.header_path, vec!["# T", "## S"]);
        assert!(c.start_pos <= c.end_pos && c.end_pos <= doc.len());
    }
}

#[test]
fn segment_of_850_bytes_stays_whole() {
    let doc = format!("# H\n{}", "b".repeat(846));
    assert_eq!(doc.len(), 850);
    let chunks = chunk_markdown(&doc);
    assert_eq!(chunks.len(), 1);
    assert_eq!(chunks[0].content, doc);
    let doc2 = format!("# H\n{}", "b".repeat(847));
    let chunks2 = chunk_markdown(&doc2);
    let lens: Vec<usize> = chunks2.iter().map(|c| c.content.len()).collect();
    assert_eq!(lens, vec![3, 800, 47]);
    assert_eq!(chunks2[0].content, "# H");
    assert!(chunks2.iter().all(|c| c.header_path == vec!["# H"]));
}

#[test]
fn text_before_first_heading_is_left_out() {
    let chunks = chunk_markdown("intro\n# H\nbody");
    assert_eq!(chunks.len(), 1);
    assert_eq!(chunks[0].content, "# H\nbody");
    assert_eq!((chunks[0].start_pos, chunks[0].end_pos), (6, 14));
}

#[test]
fn heading_without_label_is_not_a_heading() {
    let doc = "#   \n  ## \ntext";
    assert!(extract_headers(doc).is_empty());
    let chunks = chunk_markdown(doc);
    assert_eq!(chunks.len(), 1);
    assert_eq!(chunks[0].content, doc);
    assert!(chunks[0].header_path.is_empty());
}

#[test]
fn heading_levels_labels_and_offsets() {
    let headers = extract_headers("  ## Two  \nplain\n###### Six\n#x\n");
    assert_eq!(headers.len(), 3);
    assert_eq!((headers[0].level, headers[0].text.as_str(), headers[0].position), (2, "Two", 0));
    assert_eq!((headers[1].level, headers[1].text.as_str(), headers[1].position), (6, "Six", 17));
    assert_eq!((headers[2].level, headers[2].text.as_str(), headers[2].position), (1, "x", 28));
}

#[test]
fn crlf_offsets_drift_by_one_per_line() {
    let doc = "# A\r\nx\r\n# B\r\ny";
    let headers = extract_headers(doc);
    assert_eq!(headers[1].position, 6);
    let chunks = chunk_markdown(doc);
    assert_eq!(chunks.len(), 2);
    assert_eq!(chunks[0].content, "# A\r\nx");
    assert_eq!(chunks[1].content, "\r\n# B\r\ny");
    assert_eq!((chunks[1].start_pos, chunks[1].end_pos), (6, 14));
    assert_eq!(chunks[1].header_path, vec!["# B"]);
}

#[test]
fn drifted_offset_inside_a_character_is_taken_back() {
    let doc = "# A\r\n\r\né\r\n# B\n";
    let headers = extract_headers(doc);
    assert_eq!(headers[1].position, 8);
    let chunks = chunk_markdown(doc);
    assert_eq!(chunks.len(), 2);
    assert_eq!((chunks[1].start_pos, chunks[1].end_pos), (7, 15));
    assert_eq!(chunks[1].content, "é\r\n# B\n");
    assert_eq!(chunks[0].content, "# A\r\n\r\n");
}

#[test]
fn split_keeps_characters_whole() {
    let text = format!("a{}", "中".repeat(300));
    let parts = recursive_split(&text, 800);
    let lens: Vec<usize> = parts.iter().map(|p| p.len()).collect();
    assert_eq!(lens, vec![799, 102]);
    assert_eq!(parts.concat(), text);
}

#[test]
fn split_packs_two_byte_characters() {
    let text = "é".repeat(500);
    let parts = recursive_split(&text, 800);
    let lens: Vec<usize> = parts.iter().map(|p| p.len()).collect();
    assert_eq!(lens, vec![800, 200]);
    assert_eq!(parts.concat(), text);
}

#[test]
fn split_packs_lines_and_trims() {
    let line = "x".repeat(300);
    let text = format!("{l}\n{l}\n{l}\n{l}\n", l = line);
    let parts = recursive_split(&text, 800);
    assert_eq!(parts, vec![format!("{l}\n{l}", l = line), format!("{l}\n{l}", l = line)]);
}

#[test]
fn split_of_fitting_text_is_the_text() {
    assert_eq!(recursive_split("a  \n b\n", 800), vec!["a  \n b\n"]);
    assert_eq!(recursive_split("", 800), vec![""]);
}

#[test]
fn split_with_character_wider_than_bound() {
    let parts = recursive_split("中中", 2);
    assert_eq!(parts, vec!["中", "中"]);
}

#[test]
fn split_long_line_between_short_ones() {
    let long = "y".repeat(900);
    let text = format!("ab\n{}\ncd", long);
    let parts = recursive_split(&text, 800);
    assert_eq!(parts, vec!["ab".to_string(), "y".repeat(800), "y".repeat(100), "cd".to_string()]);
}

#[test]
fn point_type_names() {
    assert_eq!(PointType::Text.as_str(), "text");
    assert_eq!(PointType::Image.as_str(), "image");
    assert_eq!(PointType::from_str("text"), Some(PointType::Text));
    assert_eq!(PointType::from_str("image"), Some(PointType::Image));
    assert_eq!(PointType::from_str("Image"), None);
    assert_eq!(PointType::from_str(""), None);
}

#[test]
fn images_get_their_section_as_context() {
    let doc = "# T\n## P\nparis\n![[p.jpg]]\n## L\nlondon ![l](l.png)\n";
    let links = image_sections(doc);
    assert_eq!(links.len(), 2);
    assert_eq!(links[0].path, "p.jpg");
    assert_eq!(links[0].context, "## P\nparis\n![[p.jpg]]\n");
    assert_eq!(links[1].path, "l.png");
    assert_eq!(links[1].context, "## L\nlondon ![l](l.png)\n");
}

#[test]
fn index_request_reads_its_kind() {
    let mut req = IndexRequest {
        path: "/n.md".to_string(),
        content: String::new(),
        point_type: "image".to_string(),
    };
    assert!(req.includes_images());
    req.point_type = "text".to_string();
    assert!(!req.includes_images());
    assert_eq!(default_limit(), 10);
}
