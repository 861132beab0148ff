use ob_image_vector_rs::image_context::{
    extract_context, extract_image_links, extract_section_context, ImageSyntaxType,
};

#[test]
fn test_extract_obsidian_syntax() {
    let markdown = r#"这是一段文字。

![[travel/paris.jpg]]

这是图片后的文字。
"#;

    let links = extract_image_links(markdown);

    assert_eq!(links.len(), 1, "应该提取到 1 个图片链接");
    assert_eq!(links[0].path, "travel/paris.jpg");
    assert_eq!(links[0].syntax_type, ImageSyntaxType::Obsidian);
}

#[test]
fn test_extract_markdown_syntax() {
    let markdown = r#"这是一段文字。

![埃菲尔铁塔](images/eiffel.png)

这是图片后的文字。
"#;

    let links = extract_image_links(markdown);

    assert_eq!(links.len(), 1, "应该提取到 1 个图片链接");
    assert_eq!(links[0].path, "images/eiffel.png");
    assert_eq!(links[0].syntax_type, ImageSyntaxType::Markdown);
}

// The window holds 10 characters on each side of the reference's first character, so
// it ends inside the reference and the text after it lies outside.
#[test]
fn test_context_extraction() {
    let content = "前面的文字内容。![[image.png]]后面的文字内容。";
    let image_pos = content.find("![[").unwrap();

    let context = extract_context(content, image_pos, 10);

    assert!(context.contains("前面的文字"), "上下文应包含图片前面的文字");
    assert!(!context.contains("后面的文字"));
    assert_eq!(context, "前面的文字内容。![[image.p");
}

#[test]
fn test_section_context() {
    let markdown = r#"# 旅行日记

## 巴黎之旅

2024年春天，我去了巴黎。
埃菲尔铁塔非常壮观。

![[paris/eiffel.jpg]]

这是铁塔的照片。

## 伦敦之旅

伦敦的大本钟也很漂亮。
"#;

    let image_pos = markdown.find("![[").unwrap();
    let context = extract_section_context(markdown, image_pos);

    assert!(context.contains("巴黎之旅"), "上下文应包含当前标题");
    assert!(context.contains("埃菲尔铁塔"), "上下文应包含标题下的内容");
    assert!(!context.contains("伦敦"), "上下文不应包含其他section");
}

#[test]
fn test_multiple_images() {
    let markdown = r#"
![[image1.png]]

一些文字

![描述](image2.jpg)

更多文字

![[image3.png]]
"#;

    let links = extract_image_links(markdown);

    assert_eq!(links.len(), 3, "应该识别 3 个图片");
    assert_eq!(links[0].path, "image1.png");
    assert_eq!(links[0].syntax_type, ImageSyntaxType::Obsidian);
    assert_eq!(links[1].path, "image2.jpg");
    assert_eq!(links[1].syntax_type, ImageSyntaxType::Markdown);
    assert_eq!(links[2].path, "image3.png");
    assert_eq!(links[2].syntax_type, ImageSyntaxType::Obsidian);
}

#[test]
fn test_no_images() {
    let markdown = "这是一段没有图片的文本。\n只有普通的文字。";

    let links = extract_image_links(markdown);

    assert_eq!(links.len(), 0, "无图片文本应返回空列表");
}

#[test]
fn image_context_debug_context() {
    let content = "前面的文字内容。![[image.png]]后面的文字内容。";
    let image_pos = content.find("![[").unwrap();

    let context = extract_context(content, image_pos, 10);

    println!("\n=== DEBUG ===");
    println!("Image pos (bytes): {}", image_pos);
    println!("Context (10 chars before/after): {:?}", context);
    println!("Context length: {}", context.len());
    println!("Contains '前面的文字': {}", context.contains("前面的文字"));
    println!("Contains '后面的文字': {}", context.contains("后面的文字"));
}

#[test]
fn image_context_debug_section() {
    let markdown = r#"# 旅行日记

## 巴黎之旅

2024年春天，我去了巴黎。
埃菲尔铁塔非常壮观。

![[paris/eiffel.jpg]]

这是铁塔的照片。

## 伦敦之旅

伦敦的大本钟也很漂亮。
"#;

    let image_pos = markdown.find("![[").unwrap();
    let context = extract_section_context(markdown, image_pos);

    println!("\n=== SECTION DEBUG ===");
    println!("Image pos: {}", image_pos);
    println!("Section context:\n{}", context);
    println!("\nContains '巴黎之旅': {}", context.contains("巴黎之旅"));
    println!("Contains '埃菲尔铁塔': {}", context.contains("埃菲尔铁塔"));
    println!("Contains '伦敦': {}", context.contains("伦敦"));
}

#[test]
fn image_context_debug_debug_context() {
    let content = "前面的文字内容。![[image.png]]后面的文字内容。";
    let image_pos = content.find("![[").unwrap();

    let context = extract_context(content, image_pos, 10);

    println!("\n=== DEBUG ===");
    println!("Image pos (bytes): {}", image_pos);
    println!("Context (10 chars before/after): {:?}", context);
    println!("Context length: {}", context.len());
    println!("Contains '前面的文字': {}", context.contains("前面的文字"));
    println!("Contains '后面的文字': {}", context.contains("后面的文字"));
    println!("Contains '![[': {}", context.contains("![["));
}

#[test]
fn image_context_debug_debug_section() {
    let markdown = r#"# 旅行日记

## 巴黎之旅

2024年春天，我去了巴黎。
埃菲尔铁塔非常壮观。

![[paris/eiffel.jpg]]

这是铁塔的照片。

## 伦敦之旅

伦敦的大本钟也很漂亮。
"#;

    let image_pos = markdown.find("![[").unwrap();
    let context = extract_section_context(markdown, image_pos);

    println!("\n=== SECTION DEBUG ===");
    println!("Image pos: {}", image_pos);
    println!("Section context:\n{}", context);
    println!("\nContains '巴黎之旅': {}", context.contains("巴黎之旅"));
    println!("Contains '埃菲尔铁塔': {}", context.contains("埃菲尔铁塔"));
    println!("Contains '伦敦': {}", context.contains("伦敦"));
}
