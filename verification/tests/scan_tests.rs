use pdf_outline::content::{Op, OpKind, Operand, Page, PdfError, ResourceEntry};
use pdf_outline::font_reader::{get_all_fonts, update_font_from_operation};
use pdf_outline::pdf_font::PdfFont;

fn op(kind: OpKind, operands: Vec<Operand>) -> Op {
    Op { kind, operands }
}

fn set_font(name: &str, size: u32) -> Op {
    op(
        OpKind::SetFont,
        vec![Operand::Name(String::from(name)), Operand::Num(size)],
    )
}

fn show(text: &str) -> Op {
    op(OpKind::ShowText, vec![Operand::Text(String::from(text))])
}

fn resources() -> Vec<ResourceEntry> {
    vec![ResourceEntry {
        name: String::from("F1"),
        base_font: String::from("Helvetica"),
    }]
}

#[test]
fn page_count_not_occurrence_count() {
    // one font used fifty times on one page and once on another: page-count 2
    let mut ops1 = vec![set_font("F1", 12)];
    for _ in 0..50 {
        ops1.push(show("x"));
    }
    let page1 = Page { number: 1, ops: ops1, resources: resources() };
    let page2 = Page {
        number: 2,
        ops: vec![set_font("F1", 12), show("y")],
        resources: resources(),
    };
    let inv = get_all_fonts(&vec![page1, page2]).unwrap();
    assert_eq!(inv.len(), 1);
    assert_eq!(inv[0].font.base_font, "Helvetica");
    assert_eq!(inv[0].font.size, (12, 12));
    assert_eq!(inv[0].count, 2);
}

#[test]
fn set_matrix_overwrites_scales_only() {
    let page = Page {
        number: 1,
        ops: vec![
            set_font("F1", 12),
            op(
                OpKind::SetMatrix,
                vec![
                    Operand::Num(30),
                    Operand::Other,
                    Operand::Other,
                    Operand::Num(40),
                    Operand::Other,
                    Operand::Other,
                ],
            ),
            show("x"),
        ],
        resources: resources(),
    };
    let inv = get_all_fonts(&vec![page]).unwrap();
    assert_eq!(inv.len(), 1);
    assert_eq!(inv[0].font.base_font, "Helvetica");
    assert_eq!(inv[0].font.size, (30, 40));
}

#[test]
fn malformed_set_matrix_aborts_scan() {
    // a set-text-matrix operator with 5 operands raises the syntax error
    let page = Page {
        number: 1,
        ops: vec![op(
            OpKind::SetMatrix,
            vec![
                Operand::Num(1),
                Operand::Num(0),
                Operand::Num(0),
                Operand::Num(1),
                Operand::Num(0),
            ],
        )],
        resources: resources(),
    };
    assert!(matches!(get_all_fonts(&vec![page]), Err(PdfError::Syntax)));
}

#[test]
fn unknown_font_reference_aborts_scan() {
    let page = Page {
        number: 1,
        ops: vec![set_font("F9", 12)],
        resources: resources(),
    };
    assert!(matches!(get_all_fonts(&vec![page]), Err(PdfError::ResourceNotFound)));
}

#[test]
fn malformed_set_font_arity_is_syntax_error() {
    let page = Page {
        number: 1,
        ops: vec![op(OpKind::SetFont, vec![Operand::Name(String::from("F1"))])],
        resources: resources(),
    };
    assert!(matches!(get_all_fonts(&vec![page]), Err(PdfError::Syntax)));
}

#[test]
fn error_on_later_page_leaves_no_inventory() {
    let page1 = Page {
        number: 1,
        ops: vec![set_font("F1", 12), show("x")],
        resources: resources(),
    };
    let page2 = Page {
        number: 2,
        ops: vec![op(OpKind::SetMatrix, vec![])],
        resources: resources(),
    };
    assert!(matches!(get_all_fonts(&vec![page1, page2]), Err(PdfError::Syntax)));
}

#[test]
fn font_state_resets_between_pages() {
    // the second page shows text before any font selection: the default
    // (empty) font is recorded, not the first page's selection
    let page1 = Page {
        number: 1,
        ops: vec![set_font("F1", 12), show("x")],
        resources: resources(),
    };
    let page2 = Page { number: 2, ops: vec![show("y")], resources: resources() };
    let inv = get_all_fonts(&vec![page1, page2]).unwrap();
    assert_eq!(inv.len(), 2);
    let default_entry = inv.iter().find(|e| e.font.base_font.is_empty()).unwrap();
    assert_eq!(default_entry.font.size, (0, 0));
    assert_eq!(default_entry.count, 1);
}

#[test]
fn update_font_applies_set_font_uniformly() {
    let mut font = PdfFont::default();
    let res = resources();
    let r = update_font_from_operation(&mut font, &set_font("F1", 24), &res);
    assert_eq!(r, Ok(()));
    assert_eq!(font.base_font, "Helvetica");
    assert_eq!(font.size, (24, 24));
}

#[test]
fn update_font_rejects_short_matrix() {
    let mut font = PdfFont::new(String::from("Helvetica"), (24, 24));
    let res = resources();
    let bad = op(
        OpKind::SetMatrix,
        vec![
            Operand::Num(1),
            Operand::Num(0),
            Operand::Num(0),
            Operand::Num(1),
            Operand::Num(0),
        ],
    );
    assert_eq!(update_font_from_operation(&mut font, &bad, &res), Err(PdfError::Syntax));
    // the font is left as it was
    assert_eq!(font.base_font, "Helvetica");
    assert_eq!(font.size, (24, 24));
}
