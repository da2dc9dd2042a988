use pdf_outline::pdf_font::{sort_fonts, sorts_before, PdfFont};

#[test]
fn taller_font_sorts_first() {
    let a = PdfFont::new(String::from("Helvetica"), (12, 18));
    let b = PdfFont::new(String::from("Helvetica"), (12, 12));
    assert!(sorts_before(&a, &b));
    assert!(!sorts_before(&b, &a));
}

#[test]
fn wider_font_sorts_first() {
    let a = PdfFont::new(String::from("Helvetica"), (20, 5));
    let b = PdfFont::new(String::from("Helvetica"), (12, 30));
    assert!(sorts_before(&a, &b));
    assert!(!sorts_before(&b, &a));
}

#[test]
fn equal_sizes_order_by_name_ascending() {
    let a = PdfFont::new(String::from("Arial"), (12, 12));
    let b = PdfFont::new(String::from("Times"), (12, 12));
    assert!(sorts_before(&a, &b));
    assert!(!sorts_before(&b, &a));
}

#[test]
fn shorter_name_prefix_sorts_first() {
    let a = PdfFont::new(String::from("Arial"), (12, 12));
    let b = PdfFont::new(String::from("ArialBold"), (12, 12));
    assert!(sorts_before(&a, &b));
    assert!(!sorts_before(&b, &a));
}

#[test]
fn font_never_sorts_before_itself() {
    let a = PdfFont::new(String::from("Courier"), (10, 10));
    let b = PdfFont::new(String::from("Courier"), (10, 10));
    assert!(!sorts_before(&a, &b));
}

#[test]
fn font_equality_is_structural() {
    let a = PdfFont::new(String::from("Courier"), (10, 11));
    let b = PdfFont::new(String::from("Courier"), (10, 11));
    let c = PdfFont::new(String::from("Courier"), (10, 12));
    assert!(a == b);
    assert!(a != c);
}

#[test]
fn sort_puts_largest_font_first_and_names_ascending() {
    let mut fonts = vec![
        PdfFont::new(String::from("Times"), (12, 12)),
        PdfFont::new(String::from("Arial"), (12, 12)),
        PdfFont::new(String::from("Huge"), (40, 40)),
        PdfFont::new(String::from("Tall"), (12, 30)),
    ];
    sort_fonts(&mut fonts);
    assert_eq!(fonts.len(), 4);
    assert_eq!(fonts[0].base_font, "Huge");
    assert_eq!(fonts[1].base_font, "Tall");
    assert_eq!(fonts[2].base_font, "Arial");
    assert_eq!(fonts[3].base_font, "Times");
}

#[test]
fn setters_replace_the_fields() {
    let mut f = PdfFont::default();
    assert_eq!(f.base_font, "");
    assert_eq!(f.size, (0, 0));
    f.set_base_font(String::from("Symbol"));
    f.set_size((7, 9));
    assert_eq!(f.base_font, "Symbol");
    assert_eq!(f.size, (7, 9));
}
