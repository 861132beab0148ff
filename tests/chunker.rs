use ob_image_vector_rs::chunker::{chunk_markdown, extract_headers};
use ob_image_vector_rs::splitter::recursive_split;

#[test]
fn test_basic_header_split() {
    let markdown = r#"# 一级标题

这是一级标题下的内容。

## 二级标题 A

这是二级标题 A 的内容。

## 二级标题 B

这是二级标题 B 的内容。

# 另一个一级标题

这是另一个一级标题的内容。
"#;

    let chunks = chunk_markdown(markdown);

    assert!(
        chunks.len() >= 3,
        "应该至少有 3 个切片，实际: {}",
        chunks.len()
    );

    let first_chunk = &chunks[0];
    assert!(
        first_chunk.content.contains("一级标题下的内容"),
        "第一个切片应包含一级标题的内容"
    );
    assert_eq!(
        first_chunk.header_path,
        vec!["# 一级标题"],
        "第一个切片的标题路径应该是 ['# 一级标题']"
    );

    let has_nested_header = chunks.iter().any(|chunk| {
        chunk.header_path.len() == 2
            && chunk.header_path[0] == "# 一级标题"
            && chunk.header_path[1].starts_with("## 二级标题")
    });
    assert!(has_nested_header, "应该有包含嵌套标题路径的切片");
}

#[test]
fn test_length_control() {
    let long_paragraph = "这是一个很长的段落。".repeat(100);
    let markdown = format!("# 标题\n\n{}", long_paragraph);

    let chunks = chunk_markdown(&markdown);

    for chunk in &chunks {
        assert!(
            chunk.content.len() <= 850,
            "切片长度 {} 超过了 850 字符上限",
            chunk.content.len()
        );
    }

    if long_paragraph.len() > 800 {
        assert!(chunks.len() > 1, "超长段落应该被切分为多个切片");
    }
}

#[test]
fn test_recursive_split() {
    let long_text = "A".repeat(2000);
    let max_len = 800;

    let parts = recursive_split(&long_text, max_len);

    assert!(parts.len() >= 3, "2000 字符应该被切分为至少 3 个部分");

    for part in &parts {
        assert!(
            part.len() <= max_len,
            "切分后的部分长度 {} 不应超过 {}",
            part.len(),
            max_len
        );
    }

    let reconstructed = parts.join("");
    assert_eq!(reconstructed, long_text, "切分后拼接应该还原原文");
}

#[test]
fn test_header_path_preservation() {
    let markdown = r#"# Level 1

Content under L1.

## Level 2

Content under L2.

### Level 3

Content under L3.
"#;

    let chunks = chunk_markdown(markdown);

    let level3_chunk = chunks
        .iter()
        .find(|chunk| chunk.content.contains("Content under L3"));

    assert!(level3_chunk.is_some(), "应该有 Level 3 的切片");

    let level3_chunk = level3_chunk.unwrap();

    assert_eq!(
        level3_chunk.header_path,
        vec!["# Level 1", "## Level 2", "### Level 3"],
        "应该保留完整的标题层级路径"
    );
}

#[test]
fn test_empty_content() {
    let empty = "";
    let chunks = chunk_markdown(empty);
    assert_eq!(chunks.len(), 0, "空内容应该返回空切片列表");
}

#[test]
fn test_no_headers() {
    let plain_text = "这是一段没有标题的纯文本。\n它包含多行内容。\n但是没有任何 Markdown 标题。";

    let chunks = chunk_markdown(plain_text);

    assert!(chunks.len() >= 1, "无标题文本应该产生至少一个切片");

    let first_chunk = &chunks[0];
    assert!(
        first_chunk.content.contains("没有标题的纯文本"),
        "切片应该包含原始内容"
    );

    assert_eq!(
        first_chunk.header_path.len(),
        0,
        "无标题文本的标题路径应该为空"
    );
}

#[test]
fn test_extract_headers() {
    let markdown = r#"# Header 1
## Header 2
### Header 3
Not a header
#### Header 4
"#;

    let headers = extract_headers(markdown);

    assert_eq!(headers.len(), 4, "应该提取到 4 个标题");
    assert_eq!(headers[0].level, 1);
    assert_eq!(headers[0].text, "Header 1");
    assert_eq!(headers[1].level, 2);
    assert_eq!(headers[1].text, "Header 2");
    assert_eq!(headers[2].level, 3);
    assert_eq!(headers[3].level, 4);
}

#[test]
fn debug_test_header_path() {
    let markdown = r#"# Level 1

Content under L1.

## Level 2

Content under L2.

### Level 3

Content under L3.
"#;

    let chunks = chunk_markdown(markdown);

    for (i, chunk) in chunks.iter().enumerate() {
        println!("Chunk {}: header_path = {:?}", i, chunk.header_path);
        println!("  Content start: {:?}", chunk.content.lines().next());
    }

    let level3_chunk = chunks
        .iter()
        .find(|chunk| chunk.content.contains("Content under L3"));
    assert!(level3_chunk.is_some());
    println!(
        "\nFound Level 3 chunk: {:?}",
        level3_chunk.unwrap().header_path
    );
}
