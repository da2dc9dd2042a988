use pdf_outline::content::{ArrayElem, Op, OpKind, Operand, Page, ResourceEntry};
use pdf_outline::outline_generator::{generate_outline, get_first_instance_on_page};
use pdf_outline::pdf_font::PdfFont;
use pdf_outline::pdf_outline::{print_outline, render_outline};

fn op(kind: OpKind, operands: Vec<Operand>) -> Op {
    Op { kind, operands }
}

fn set_font(name: &str, size: u32) -> Op {
    op(
        OpKind::SetFont,
        vec![Operand::Name(String::from(name)), Operand::Num(size)],
    )
}

fn show(text: &str) -> Op {
    op(OpKind::ShowText, vec![Operand::Text(String::from(text))])
}

fn resources() -> Vec<ResourceEntry> {
    vec![
        ResourceEntry { name: String::from("F1"), base_font: String::from("Helvetica") },
        ResourceEntry { name: String::from("F2"), base_font: String::from("Times") },
    ]
}

fn heading_font() -> PdfFont {
    PdfFont::new(String::from("Helvetica"), (18, 18))
}

fn heading_page(number: u32, title: &str) -> Page {
    Page {
        number,
        ops: vec![set_font("F1", 18), show(title), set_font("F2", 10), show("body")],
        resources: resources(),
    }
}

fn plain_page(number: u32) -> Page {
    Page {
        number,
        ops: vec![set_font("F2", 10), show("body")],
        resources: resources(),
    }
}

#[test]
fn three_matching_pages_give_three_top_entries() {
    // pages 2, 5 and 9 each hold one uninterrupted run in the heading font
    let mut pages = vec![];
    for n in 1..=10u32 {
        if n == 2 || n == 5 || n == 9 {
            pages.push(heading_page(n, "Heading"));
        } else {
            pages.push(plain_page(n));
        }
    }
    let outline = generate_outline(&pages, &vec![vec![heading_font()]]);
    assert_eq!(outline.len(), 3);
    assert_eq!(outline[0].page_number, 2);
    assert_eq!(outline[1].page_number, 5);
    assert_eq!(outline[2].page_number, 9);
    for e in &outline {
        assert_eq!(e.title, "Heading");
        assert!(e.children.is_empty());
    }
}

#[test]
fn orphan_depth_two_entry_is_dropped() {
    // the depth-2 font matches on page 3, but no depth-1 entry exists at
    // or before page 3: the entry is omitted
    let a = PdfFont::new(String::from("Helvetica"), (18, 18));
    let b = PdfFont::new(String::from("Times"), (14, 14));
    let page3 = Page {
        number: 3,
        ops: vec![set_font("F2", 14), show("Orphan")],
        resources: resources(),
    };
    let page5 = heading_page(5, "Late chapter");
    let outline = generate_outline(&vec![page3, page5], &vec![vec![a], vec![b]]);
    assert_eq!(outline.len(), 1);
    assert_eq!(outline[0].page_number, 5);
    assert_eq!(outline[0].title, "Late chapter");
    assert!(outline[0].children.is_empty());
}

#[test]
fn depth_two_entry_nests_under_preceding_parent() {
    let a = PdfFont::new(String::from("Helvetica"), (18, 18));
    let b = PdfFont::new(String::from("Times"), (14, 14));
    let page2 = heading_page(2, "Chapter");
    let page3 = Page {
        number: 3,
        ops: vec![set_font("F2", 14), show("Section")],
        resources: resources(),
    };
    let outline = generate_outline(&vec![page2, page3], &vec![vec![a], vec![b]]);
    assert_eq!(outline.len(), 1);
    assert_eq!(outline[0].title, "Chapter");
    assert_eq!(outline[0].children.len(), 1);
    assert_eq!(outline[0].children[0].title, "Section");
    assert_eq!(outline[0].children[0].page_number, 3);
}

#[test]
fn consecutive_shows_concatenate_until_font_change() {
    // "Chapter " then "One" under an unchanged font, then a font change:
    // one entry titled "Chapter One"
    let page = Page {
        number: 1,
        ops: vec![
            set_font("F1", 18),
            show("Chapter "),
            show("One"),
            set_font("F2", 10),
            show("body text"),
        ],
        resources: resources(),
    };
    let title = get_first_instance_on_page(&page, &heading_font());
    assert_eq!(title, Some(String::from("Chapter One")));
    let outline = generate_outline(&vec![page], &vec![vec![heading_font()]]);
    assert_eq!(outline.len(), 1);
    assert_eq!(outline[0].title, "Chapter One");
}

#[test]
fn run_ends_at_matrix_change_too() {
    let page = Page {
        number: 1,
        ops: vec![
            set_font("F1", 18),
            show("Title"),
            op(
                OpKind::SetMatrix,
                vec![
                    Operand::Num(10),
                    Operand::Num(0),
                    Operand::Num(0),
                    Operand::Num(10),
                    Operand::Num(0),
                    Operand::Num(0),
                ],
            ),
            show("ignored"),
        ],
        resources: resources(),
    };
    assert_eq!(
        get_first_instance_on_page(&page, &heading_font()),
        Some(String::from("Title"))
    );
}

#[test]
fn non_text_show_operand_is_skipped() {
    let page = Page {
        number: 1,
        ops: vec![
            set_font("F1", 18),
            op(OpKind::ShowText, vec![Operand::Num(7)]),
            show("Real title"),
        ],
        resources: resources(),
    };
    assert_eq!(
        get_first_instance_on_page(&page, &heading_font()),
        Some(String::from("Real title"))
    );
}

#[test]
fn show_array_takes_only_the_first_fragment() {
    let page = Page {
        number: 1,
        ops: vec![
            set_font("F1", 18),
            op(
                OpKind::ShowTextArray,
                vec![Operand::Array(vec![
                    ArrayElem::Text(String::from("Kerned")),
                    ArrayElem::Other,
                    ArrayElem::Text(String::from(" dropped")),
                ])],
            ),
        ],
        resources: resources(),
    };
    assert_eq!(
        get_first_instance_on_page(&page, &heading_font()),
        Some(String::from("Kerned"))
    );
}

#[test]
fn spaced_show_takes_operand_two() {
    let page = Page {
        number: 1,
        ops: vec![
            set_font("F1", 18),
            op(
                OpKind::ShowTextSpaced,
                vec![
                    Operand::Num(1),
                    Operand::Num(2),
                    Operand::Text(String::from("Spaced title")),
                ],
            ),
        ],
        resources: resources(),
    };
    assert_eq!(
        get_first_instance_on_page(&page, &heading_font()),
        Some(String::from("Spaced title"))
    );
}

#[test]
fn tracker_error_means_no_match_not_failure() {
    let broken = Page {
        number: 1,
        ops: vec![op(OpKind::SetMatrix, vec![]), set_font("F1", 18), show("x")],
        resources: resources(),
    };
    let good = heading_page(2, "Works");
    assert_eq!(get_first_instance_on_page(&broken, &heading_font()), None);
    let outline = generate_outline(&vec![broken, good], &vec![vec![heading_font()]]);
    assert_eq!(outline.len(), 1);
    assert_eq!(outline[0].page_number, 2);
}

#[test]
fn fourth_depth_is_never_processed() {
    let a = PdfFont::new(String::from("Helvetica"), (18, 18));
    let pages = vec![heading_page(1, "Top")];
    let outline = generate_outline(
        &pages,
        &vec![vec![], vec![], vec![], vec![a]],
    );
    assert!(outline.is_empty());
}

#[test]
fn rendered_outline_lists_titles_and_pages() {
    let pages = vec![heading_page(3, "Intro")];
    let outline = generate_outline(&pages, &vec![vec![heading_font()]]);
    let text = render_outline(&outline);
    assert_eq!(text, "Intro  3\n");
    print_outline(&outline);
}
