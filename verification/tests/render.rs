use feishu2everywhere::block::{Block, HeadLevel, ListOne, ListType, TextSlice};
use feishu2everywhere::render::{
    format_list_items_to_markdown, format_text_slices_to_markdown, head_level_to_usize,
    plan_export, process_block_to_markdown, u64_to_dec, ImageCopy,
};

fn slice(text: &str) -> TextSlice {
    TextSlice {
        text: text.to_string(),
        is_bold: false,
        is_underline: false,
        is_code: false,
        link: None,
    }
}

#[test]
fn plain_text_slices_concatenate() {
    let md = format_text_slices_to_markdown(&vec![slice("Hello "), slice("world")]);
    assert_eq!(md, "Hello world");
}

#[test]
fn bold_code_and_link_wrappers() {
    let bold = TextSlice { is_bold: true, ..slice("bold world") };
    let code = TextSlice { is_code: true, ..slice("code") };
    let link = TextSlice { link: Some("http://example.com".to_string()), ..slice("link") };
    let md = format_text_slices_to_markdown(&vec![
        slice("Hello "),
        bold,
        slice(", and a "),
        link,
        slice(" with "),
        code,
        slice("."),
    ]);
    assert_eq!(
        md,
        "Hello **bold world**, and a [link](http://example.com) with `code`."
    );
}

#[test]
fn code_inside_bold_inside_link() {
    let t = TextSlice {
        is_bold: true,
        is_code: true,
        link: Some("u".to_string()),
        ..slice("x")
    };
    let md = format_text_slices_to_markdown(&vec![t]);
    assert_eq!(md, "[**`x`**](u)");
}

#[test]
fn head_levels_count_from_one() {
    assert_eq!(head_level_to_usize(&HeadLevel::H1), 1);
    assert_eq!(head_level_to_usize(&HeadLevel::H7), 7);
    assert_eq!(head_level_to_usize(&HeadLevel::H10), 10);
}

#[test]
fn decimal_rendering() {
    assert_eq!(u64_to_dec(0), vec!['0']);
    assert_eq!(u64_to_dec(7), vec!['7']);
    assert_eq!(u64_to_dec(1234), vec!['1', '2', '3', '4']);
    assert_eq!(u64_to_dec(1000), vec!['1', '0', '0', '0']);
}

#[test]
fn title_renders_capped_hashes() {
    let mut counter: u64 = 0;
    let mut copies: Vec<ImageCopy> = Vec::new();
    let b = Block::Title { text: "Main Title".to_string(), head_level: HeadLevel::H2 };
    let md = process_block_to_markdown(&b, "out.rsc", &mut counter, &mut copies, 0);
    assert_eq!(md, "## Main Title\n\n");

    let deep = Block::Title { text: "Deep".to_string(), head_level: HeadLevel::H10 };
    let md = process_block_to_markdown(&deep, "out.rsc", &mut counter, &mut copies, 0);
    assert_eq!(md, "###### Deep\n\n");
    assert!(copies.is_empty());
    assert_eq!(counter, 0);
}

#[test]
fn text_block_renders_with_indent() {
    let mut counter: u64 = 0;
    let mut copies: Vec<ImageCopy> = Vec::new();
    let bold = TextSlice { is_bold: true, ..slice("hi") };
    let b = Block::Text(vec![bold]);
    let md = process_block_to_markdown(&b, "out.rsc", &mut counter, &mut copies, 1);
    assert_eq!(md, "    **hi**\n\n");
}

#[test]
fn empty_text_block_renders_nothing() {
    let mut counter: u64 = 0;
    let mut copies: Vec<ImageCopy> = Vec::new();
    let b = Block::Text(vec![]);
    let md = process_block_to_markdown(&b, "out.rsc", &mut counter, &mut copies, 0);
    assert_eq!(md, "");
}

#[test]
fn code_block_with_and_without_language() {
    let mut counter: u64 = 0;
    let mut copies: Vec<ImageCopy> = Vec::new();
    let plain = Block::Code { language: "".to_string(), code: "let x = 1;".to_string() };
    let md = process_block_to_markdown(&plain, "out.rsc", &mut counter, &mut copies, 0);
    assert_eq!(md, "```\nlet x = 1;\n```\n\n");

    let rust = Block::Code { language: "rust".to_string(), code: "fn main() {}".to_string() };
    let md = process_block_to_markdown(&rust, "out.rsc", &mut counter, &mut copies, 0);
    assert_eq!(md, "```rust\nfn main() {}\n```\n\n");
}

#[test]
fn image_block_advances_counter_and_plans_copy() {
    let mut counter: u64 = 0;
    let mut copies: Vec<ImageCopy> = Vec::new();
    let b = Block::Image { cached_path: "image_cache/one/abcd.png".to_string() };
    let md = process_block_to_markdown(&b, "out.rsc", &mut counter, &mut copies, 0);
    assert_eq!(md, "![abcd.png](out.rsc/1_abcd.png)\n\n");
    assert_eq!(counter, 1);
    assert_eq!(copies.len(), 1);
    assert_eq!(copies[0].source, "image_cache/one/abcd.png");
    assert_eq!(copies[0].dest_name, "1_abcd.png");

    let b2 = Block::Image { cached_path: "image_cache/one/efgh.png".to_string() };
    let md2 = process_block_to_markdown(&b2, "out.rsc", &mut counter, &mut copies, 0);
    assert_eq!(md2, "![efgh.png](out.rsc/2_efgh.png)\n\n");
    assert_eq!(counter, 2);
    assert_eq!(copies[1].dest_name, "2_efgh.png");
}

#[test]
fn unordered_items_render_with_dashes() {
    let mut counter: u64 = 0;
    let mut copies: Vec<ImageCopy> = Vec::new();
    let items = vec![
        ListOne::new(vec![slice("Item 1")], None, vec![]),
        ListOne::new(vec![slice("Item 2")], None, vec![]),
    ];
    let md = format_list_items_to_markdown(
        &items,
        &ListType::Unordered,
        0,
        "out.rsc",
        &mut counter,
        &mut copies,
    );
    assert_eq!(md, "- Item 1\n- Item 2\n");
}

#[test]
fn ordered_items_number_from_one() {
    let mut counter: u64 = 0;
    let mut copies: Vec<ImageCopy> = Vec::new();
    let items = vec![
        ListOne::new(vec![slice("a")], None, vec![]),
        ListOne::new(vec![slice("b")], None, vec![]),
        ListOne::new(vec![slice("c")], None, vec![]),
    ];
    let md = format_list_items_to_markdown(
        &items,
        &ListType::Ordered,
        1,
        "out.rsc",
        &mut counter,
        &mut copies,
    );
    assert_eq!(md, "    1. a\n    2. b\n    3. c\n");
}

#[test]
fn task_items_render_checkboxes() {
    let mut counter: u64 = 0;
    let mut copies: Vec<ImageCopy> = Vec::new();
    let items = vec![
        ListOne::new(vec![slice("Task A (done)")], Some(true), vec![]),
        ListOne::new(vec![slice("Task B (pending)")], Some(false), vec![]),
        ListOne::new(vec![slice("Task C (unknown)")], None, vec![]),
    ];
    let md = format_list_items_to_markdown(
        &items,
        &ListType::Task,
        0,
        "out.rsc",
        &mut counter,
        &mut copies,
    );
    assert_eq!(
        md,
        "- [x] Task A (done)\n- [ ] Task B (pending)\n- [ ] Task C (unknown)\n"
    );
}

#[test]
fn nested_content_renders_one_level_deeper() {
    let mut counter: u64 = 0;
    let mut copies: Vec<ImageCopy> = Vec::new();
    let nested = Block::List {
        list_type: ListType::Ordered,
        items: vec![
            ListOne::new(vec![slice("Nested ordered 1")], None, vec![]),
            ListOne::new(vec![slice("Nested ordered 2")], None, vec![]),
        ],
    };
    let items = vec![ListOne::new(
        vec![slice("Item 1")],
        None,
        vec![Block::Text(vec![slice("Sub text for item 1")]), nested],
    )];
    let md = format_list_items_to_markdown(
        &items,
        &ListType::Unordered,
        0,
        "out.rsc",
        &mut counter,
        &mut copies,
    );
    assert_eq!(
        md,
        "- Item 1\n    Sub text for item 1\n\n    1. Nested ordered 1\n    2. Nested ordered 2\n"
    );
}

#[test]
fn top_level_list_gets_trailing_blank_line() {
    let mut counter: u64 = 0;
    let mut copies: Vec<ImageCopy> = Vec::new();
    let b = Block::List {
        list_type: ListType::Unordered,
        items: vec![ListOne::new(vec![slice("only")], None, vec![])],
    };
    let md = process_block_to_markdown(&b, "out.rsc", &mut counter, &mut copies, 0);
    assert_eq!(md, "- only\n\n");
}

#[test]
fn export_requires_markdown_extension() {
    let blocks = vec![Block::Text(vec![slice("test")])];
    assert!(plan_export(&blocks, "test_output/no_md.txt").is_none());
}

#[test]
fn export_plan_renders_and_names_resources() {
    let blocks = vec![
        Block::Title { text: "Doc".to_string(), head_level: HeadLevel::H1 },
        Block::Text(vec![slice("body")]),
        Block::Image { cached_path: "image_cache/one/pic.png".to_string() },
    ];
    let plan = plan_export(&blocks, "dir/report.md").unwrap();
    assert_eq!(plan.rsc_dir_name, "report.rsc");
    assert_eq!(
        plan.markdown,
        "# Doc\n\nbody\n\n![pic.png](report.rsc/1_pic.png)\n\n"
    );
    assert_eq!(plan.copies.len(), 1);
    assert_eq!(plan.copies[0].source, "image_cache/one/pic.png");
    assert_eq!(plan.copies[0].dest_name, "1_pic.png");
}

#[test]
fn export_plan_for_a_document_with_lists() {
    let nested = Block::List {
        list_type: ListType::Ordered,
        items: vec![
            ListOne::new(vec![slice("Nested ordered 1")], None, vec![]),
            ListOne::new(vec![slice("Nested ordered 2")], None, vec![]),
        ],
    };
    let blocks = vec![
        Block::Title { text: "Document with Lists".to_string(), head_level: HeadLevel::H1 },
        Block::List {
            list_type: ListType::Unordered,
            items: vec![
                ListOne::new(
                    vec![slice("Item 1")],
                    None,
                    vec![Block::Text(vec![slice("Sub text for item 1")]), nested],
                ),
                ListOne::new(vec![slice("Item 2")], None, vec![]),
            ],
        },
        Block::List {
            list_type: ListType::Task,
            items: vec![
                ListOne::new(vec![slice("Task A (done)")], Some(true), vec![]),
                ListOne::new(vec![slice("Task B (pending)")], Some(false), vec![]),
            ],
        },
    ];
    let plan = plan_export(&blocks, "list_doc.md").unwrap();
    assert_eq!(plan.rsc_dir_name, "list_doc.rsc");
    assert!(plan.markdown.contains("# Document with Lists\n\n"));
    assert!(plan.markdown.contains("- Item 1\n"));
    assert!(plan.markdown.contains("    Sub text for item 1\n"));
    assert!(plan.markdown.contains("    1. Nested ordered 1\n"));
    assert!(plan.markdown.contains("    2. Nested ordered 2\n"));
    assert!(plan.markdown.contains("- Item 2\n"));
    assert!(plan.markdown.contains("- [x] Task A (done)\n"));
    assert!(plan.markdown.contains("- [ ] Task B (pending)\n"));
    assert!(plan.copies.is_empty());
}
