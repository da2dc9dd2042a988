use vstd::prelude::*;

use crate::content::{is_font_kind, is_show_kind, Op, OpKind, Operand, Page, PdfError, ResourceEntry};
use crate::pdf_font::{default_font, PdfFont, PdfFontV};

verus! {

/// The base font name the first matching resource entry binds `name` to,
/// if any entry does.
pub open spec fn lookup_resource(res: Seq<ResourceEntry>, name: Seq<char>) -> Option<Seq<char>>
    decreases res.len(),
{
    if res.len() == 0 {
        None
    } else if res[0].name@ == name {
        Some(res[0].base_font@)
    } else {
        lookup_resource(res.drop_first(), name)
    }
}

/// What a font-changing operator makes of the current font:
/// - a set-text-matrix operator needs exactly 6 operands and overwrites
///   both scales with its first and fourth operands (the diagonal);
/// - a set-font operator needs exactly 2 operands, resolves its font
///   reference through the resource mapping, and sets the resolved base
///   font name at a uniform scale;
/// - wrong operand counts and operands of the wrong kind are syntax
///   errors, an unresolvable font reference is a missing resource.
pub open spec fn font_after_op(f: PdfFontV, op: Op, res: Seq<ResourceEntry>) -> Result<
    PdfFontV,
    PdfError,
> {
    if op.kind == OpKind::SetMatrix {
        if op.operands@.len() != 6 {
            Err(PdfError::Syntax)
        } else {
            match (op.operands@[0], op.operands@[3]) {
                (Operand::Num(a), Operand::Num(d)) => Ok(
                    PdfFontV { base_font: f.base_font, size: (a, d) },
                ),
                _ => Err(PdfError::Syntax),
            }
        }
    } else if op.kind == OpKind::SetFont {
        if op.operands@.len() != 2 {
            Err(PdfError::Syntax)
        } else {
            match op.operands@[0] {
                Operand::Name(n) => match lookup_resource(res, n@) {
                    None => Err(PdfError::ResourceNotFound),
                    Some(base) => match op.operands@[1] {
                        Operand::Num(s) => Ok(PdfFontV { base_font: base, size: (s, s) }),
                        _ => Err(PdfError::Syntax),
                    },
                },
                _ => Err(PdfError::Syntax),
            }
        }
    } else {
        Ok(f)
    }
}

fn lookup_resource_exec(res: &Vec<ResourceEntry>, name: &String) -> (r: Option<String>)
    ensures
        match r {
            Some(s) => lookup_resource(res@, name@) == Some(s@),
            None => lookup_resource(res@, name@) is None,
        },
{
    let mut i: usize = 0;
    proof {
        assert(res@.skip(0) =~= res@);
    }
    loop
        invariant
            i <= res@.len(),
            lookup_resource(res@, name@) == lookup_resource(res@.skip(i as int), name@),
        decreases res@.len() - i,
    {
        if i >= res.len() {
            return None;
        }
        assert(res@.skip(i as int)[0] == res@[i as int]);
        if res[i].name == *name {
            return Some(res[i].base_font.clone());
        }
        proof {
            assert(res@.skip(i as int).drop_first() =~= res@.skip(i as int + 1));
        }
        i = i + 1;
    }
}

/// Applies one font-changing operator to the current font. On an error the
/// font is left as it was; every caller of this interpreter discards the
/// font state on error, so nothing observes the difference from the
/// operand-by-operand updates a stream processor might do.
pub fn update_font_from_operation(
    font: &mut PdfFont,
    op: &Op,
    resources: &Vec<ResourceEntry>,
) -> (r: Result<(), PdfError>)
    requires
        is_font_kind(op.kind),
    ensures
        match font_after_op(old(font)@, *op, resources@) {
            Ok(fv) => r == Ok::<(), PdfError>(()) && final(font)@ == fv,
            Err(e) => r == Err::<(), PdfError>(e) && final(font)@ == old(font)@,
        },
{
    match op.kind {
        OpKind::SetMatrix => {
            if op.operands.len() != 6 {
                return Err(PdfError::Syntax);
            }
            let a = match &op.operands[0] {
                Operand::Num(a) => *a,
                _ => { return Err(PdfError::Syntax) },
            };
            let d = match &op.operands[3] {
                Operand::Num(d) => *d,
                _ => { return Err(PdfError::Syntax) },
            };
            font.set_size((a, d));
            Ok(())
        },
        OpKind::SetFont => {
            if op.operands.len() != 2 {
                return Err(PdfError::Syntax);
            }
            let name = match &op.operands[0] {
                Operand::Name(n) => n,
                _ => { return Err(PdfError::Syntax) },
            };
            let base = match lookup_resource_exec(resources, name) {
                Some(b) => b,
                None => { return Err(PdfError::ResourceNotFound) },
            };
            let s = match &op.operands[1] {
                Operand::Num(s) => *s,
                _ => { return Err(PdfError::Syntax) },
            };
            font.set_base_font(base);
            font.set_size((s, s));
            Ok(())
        },
        _ => {
            // the precondition admits only the two font-changing kinds
            proof {
                assert(false);
            }
            Err(PdfError::Syntax)
        },
    }
}

/// The set of fonts observed at show-text operators while interpreting
/// `ops` from current font `f` with `s` already observed; the first
/// interpreter error aborts the page.
pub open spec fn page_fonts_from(
    f: PdfFontV,
    s: Set<PdfFontV>,
    ops: Seq<Op>,
    res: Seq<ResourceEntry>,
) -> Result<Set<PdfFontV>, PdfError>
    decreases ops.len(),
{
    if ops.len() == 0 {
        Ok(s)
    } else {
        let op = ops[0];
        if is_font_kind(op.kind) {
            match font_after_op(f, op, res) {
                Ok(f2) => page_fonts_from(f2, s, ops.drop_first(), res),
                Err(e) => Err(e),
            }
        } else if is_show_kind(op.kind) {
            page_fonts_from(f, s.insert(f), ops.drop_first(), res)
        } else {
            page_fonts_from(f, s, ops.drop_first(), res)
        }
    }
}

/// The set of fonts a page shows text in, starting from the default font:
/// font state never carries over from the previous page.
pub open spec fn page_font_set(p: Page) -> Result<Set<PdfFontV>, PdfError> {
    page_fonts_from(default_font(), Set::empty(), p.ops@, p.resources@)
}

/// Every font of `s` gains one page in the count map `m`; a font a page
/// shows fifty times still gains one.
pub open spec fn add_page_counts(m: Map<PdfFontV, nat>, s: Set<PdfFontV>) -> Map<PdfFontV, nat> {
    Map::new(
        |k: PdfFontV| m.dom().contains(k) || s.contains(k),
        |k: PdfFontV|
            if s.contains(k) {
                (if m.dom().contains(k) {
                    m[k]
                } else {
                    0
                }) + 1
            } else {
                m[k]
            },
    )
}

/// Folds the per-page font sets of `pages` into the count map `m`,
/// aborting on the first page whose interpretation fails.
pub open spec fn inventory_after(m: Map<PdfFontV, nat>, pages: Seq<Page>) -> Result<
    Map<PdfFontV, nat>,
    PdfError,
>
    decreases pages.len(),
{
    if pages.len() == 0 {
        Ok(m)
    } else {
        match page_font_set(pages[0]) {
            Err(e) => Err(e),
            Ok(s) => inventory_after(add_page_counts(m, s), pages.drop_first()),
        }
    }
}

/// The document-wide font inventory: for each font, the number of distinct
/// pages that show text in it; or the first interpreter error, with no
/// partial inventory.
pub open spec fn font_inventory(pages: Seq<Page>) -> Result<Map<PdfFontV, nat>, PdfError> {
    inventory_after(Map::empty(), pages)
}

/// One line of the returned inventory: a font and its page count.
pub struct FontPageCount {
    pub font: PdfFont,
    pub count: usize,
}

/// `v` lists exactly the entries of the count map `m`, each key once.
pub open spec fn inventory_matches(v: Seq<FontPageCount>, m: Map<PdfFontV, nat>) -> bool {
    &&& (forall|i: int|
        0 <= i < v.len() ==> m.dom().contains(#[trigger] v[i].font@) && m[v[i].font@] == v[i].count
            as nat)
    &&& (forall|k: PdfFontV| #[trigger]
        m.dom().contains(k) ==> exists|i: int| 0 <= i < v.len() && #[trigger] v[i].font@ == k)
    &&& (forall|i: int, j: int|
        #![trigger v[i].font@, v[j].font@]
        0 <= i < j < v.len() ==> v[i].font@ != v[j].font@)
}

/// The views of the fonts held in `v`.
pub open spec fn font_set(v: Seq<PdfFont>) -> Set<PdfFontV> {
    Set::new(|k: PdfFontV| exists|i: int| 0 <= i < v.len() && #[trigger] v[i]@ == k)
}

fn contains_font(v: &Vec<PdfFont>, f: &PdfFont) -> (r: bool)
    ensures
        r == font_set(v@).contains(f@),
{
    let mut i: usize = 0;
    loop
        invariant
            i <= v@.len(),
            forall|j: int| 0 <= j < i ==> #[trigger] v@[j]@ != f@,
        decreases v@.len() - i,
    {
        if i >= v.len() {
            assert(!font_set(v@).contains(f@));
            return false;
        }
        if &v[i] == f {
            assert(font_set(v@).contains(f@));
            return true;
        }
        i = i + 1;
    }
}

fn find_font(v: &Vec<FontPageCount>, f: &PdfFont) -> (r: Option<usize>)
    ensures
        match r {
            Some(ix) => ix < v@.len() && v@[ix as int].font@ == f@,
            None => forall|j: int| 0 <= j < v@.len() ==> #[trigger] v@[j].font@ != f@,
        },
{
    let mut i: usize = 0;
    loop
        invariant
            i <= v@.len(),
            forall|j: int| 0 <= j < i ==> #[trigger] v@[j].font@ != f@,
        decreases v@.len() - i,
    {
        if i >= v.len() {
            return None;
        }
        if &v[i].font == f {
            return Some(i);
        }
        i = i + 1;
    }
}

/// Scans every page in order and returns the font inventory: one entry per
/// distinct font, counting the pages that show text in it. The first
/// interpreter error aborts the scan; no partial inventory escapes.
pub fn get_all_fonts(pages: &Vec<Page>) -> (r: Result<Vec<FontPageCount>, PdfError>)
    ensures
        match r {
            Ok(v) => font_inventory(pages@) matches Ok(m) && inventory_matches(v@, m),
            Err(e) => font_inventory(pages@) == Err::<Map<PdfFontV, nat>, PdfError>(e),
        },
{
    let mut inv: Vec<FontPageCount> = Vec::new();
    let ghost mut cur_m: Map<PdfFontV, nat> = Map::empty();
    let mut i: usize = 0;
    proof {
        assert(pages@.skip(0) =~= pages@);
    }
    while i < pages.len()
        invariant
            i <= pages@.len(),
            inventory_after(cur_m, pages@.skip(i as int)) == font_inventory(pages@),
            inventory_matches(inv@, cur_m),
            forall|k: PdfFontV| #[trigger] cur_m.dom().contains(k) ==> cur_m[k] <= i,
        decreases pages@.len() - i,
    {
        let page = &pages[i];
        proof {
            assert(pages@.skip(i as int)[0] == pages@[i as int]);
            assert(pages@.skip(i as int).drop_first() =~= pages@.skip(i as int + 1));
        }

        // interpret the page, collecting its deduplicated font set
        let mut cur: PdfFont = PdfFont::default();
        let mut pv: Vec<PdfFont> = Vec::new();
        let mut j: usize = 0;
        proof {
            assert(page.ops@.skip(0) =~= page.ops@);
            assert(font_set(pv@) =~= Set::<PdfFontV>::empty());
        }
        while j < page.ops.len()
            invariant
                j <= page.ops@.len(),
                page_fonts_from(cur@, font_set(pv@), page.ops@.skip(j as int), page.resources@)
                    == page_font_set(pages@[i as int]),
                forall|a: int, b: int|
                    #![trigger pv@[a]@, pv@[b]@]
                    0 <= a < b < pv@.len() ==> pv@[a]@ != pv@[b]@,
                page == &pages@[i as int],
                i < pages@.len(),
                inventory_after(cur_m, pages@.skip(i as int)) == font_inventory(pages@),
                inventory_matches(inv@, cur_m),
                forall|k: PdfFontV| #[trigger] cur_m.dom().contains(k) ==> cur_m[k] <= i,
            decreases page.ops@.len() - j,
        {
            let op = &page.ops[j];
            proof {
                assert(page.ops@.skip(j as int)[0] == page.ops@[j as int]);
                assert(page.ops@.skip(j as int).drop_first() =~= page.ops@.skip(j as int + 1));
            }
            match op.kind {
                OpKind::SetMatrix | OpKind::SetFont => {
                    match update_font_from_operation(&mut cur, op, &page.resources) {
                        Ok(()) => {},
                        Err(e) => {
                            proof {
                                assert(page_font_set(pages@[i as int]) == Err::<
                                    Set<PdfFontV>,
                                    PdfError,
                                >(e));
                                assert(inventory_after(cur_m, pages@.skip(i as int)) == Err::<
                                    Map<PdfFontV, nat>,
                                    PdfError,
                                >(e));
                            }
                            return Err(e);
                        },
                    }
                },
                OpKind::ShowText | OpKind::ShowTextNewline | OpKind::ShowTextSpaced
                    | OpKind::ShowTextArray => {
                    let ghost old_pv = pv@;
                    if !contains_font(&pv, &cur) {
                        pv.push(
                            PdfFont { base_font: cur.base_font.clone(), size: cur.size },
                        );
                        proof {
                            assert(pv@[old_pv.len() as int]@ == cur@);
                            assert forall|k: PdfFontV|
                                font_set(pv@).contains(k) == font_set(old_pv).insert(cur@).contains(
                                    k,
                                ) by {
                                if font_set(old_pv).contains(k) {
                                    let a = choose|a: int|
                                        0 <= a < old_pv.len() && #[trigger] old_pv[a]@ == k;
                                    assert(pv@[a]@ == k);
                                }
                                if font_set(pv@).contains(k) {
                                    let a = choose|a: int|
                                        0 <= a < pv@.len() && #[trigger] pv@[a]@ == k;
                                    if a < old_pv.len() {
                                        assert(old_pv[a]@ == k);
                                    } else {
                                        assert(k == cur@);
                                    }
                                }
                            }
                            assert(font_set(pv@) =~= font_set(old_pv).insert(cur@));
                        }
                    } else {
                        proof {
                            assert(font_set(old_pv).contains(cur@));
                            assert(font_set(pv@) =~= font_set(old_pv).insert(cur@));
                        }
                    }
                },
                _ => {},
            }
            j = j + 1;
        }
        proof {
            assert(page.ops@.skip(page.ops@.len() as int) =~= Seq::<Op>::empty());
            assert(page_font_set(pages@[i as int]) == Ok::<Set<PdfFontV>, PdfError>(
                font_set(pv@),
            ));
        }

        // every font of the page's set gains one page in the inventory
        let ghost m0 = cur_m;
        let mut t: usize = 0;
        proof {
            assert(font_set(pv@.take(0)) =~= Set::<PdfFontV>::empty());
            assert(add_page_counts(m0, font_set(pv@.take(0))) =~= m0);
        }
        while t < pv.len()
            invariant
                t <= pv@.len(),
                cur_m == add_page_counts(m0, font_set(pv@.take(t as int))),
                inventory_matches(inv@, cur_m),
                forall|k: PdfFontV| #[trigger] m0.dom().contains(k) ==> m0[k] <= i,
                forall|k: PdfFontV| #[trigger] cur_m.dom().contains(k) ==> cur_m[k] <= i + 1,
                forall|a: int, b: int|
                    #![trigger pv@[a]@, pv@[b]@]
                    0 <= a < b < pv@.len() ==> pv@[a]@ != pv@[b]@,
                i < pages@.len(),
                inventory_after(m0, pages@.skip(i as int)) == font_inventory(pages@),
                page_font_set(pages@[i as int]) == Ok::<Set<PdfFontV>, PdfError>(font_set(pv@)),
            decreases pv@.len() - t,
        {
            let f = &pv[t];
            proof {
                // f's view is new to the set of the first t fonts
                assert(forall|a: int|
                    0 <= a < t ==> #[trigger] pv@.take(t as int)[a]@ == pv@[a]@);
                assert(!font_set(pv@.take(t as int)).contains(f@));
            }
            let ghost m_before = cur_m;
            match find_font(&inv, f) {
                Some(ix) => {
                    let c = inv[ix].count;
                    proof {
                        let ghost s = font_set(pv@.take(t as int));
                        assert(inv@[ix as int].font@ == f@);
                        assert(cur_m.dom().contains(f@) && cur_m[f@] == c);
                        assert(m0.dom().contains(f@) || s.contains(f@));
                        assert(m0.dom().contains(f@));
                        assert(cur_m[f@] == m0[f@]);
                        assert(c <= i);
                        vstd::std_specs::vec::axiom_spec_len(pages);
                        assert(i < pages@.len() <= usize::MAX);
                    }
                    let ghost old_inv = inv@;
                    inv[ix].count = c + 1;
                    proof {
                        cur_m = cur_m.insert(f@, (c + 1) as nat);
                        assert forall|a: int| 0 <= a < inv@.len() implies cur_m.dom().contains(
                            #[trigger] inv@[a].font@,
                        ) && cur_m[inv@[a].font@] == inv@[a].count as nat by {
                            if a != ix {
                                assert(inv@[a] == old_inv[a]);
                                assert(old_inv[a].font@ != f@);
                            }
                        }
                        assert forall|k: PdfFontV| #[trigger]
                            cur_m.dom().contains(k) implies exists|a: int|
                            0 <= a < inv@.len() && #[trigger] inv@[a].font@ == k by {
                            assert(m_before.dom().contains(k) || k == f@);
                            let a = choose|a: int|
                                0 <= a < old_inv.len() && #[trigger] old_inv[a].font@ == k;
                            assert(inv@[a].font@ == k);
                        }
                        assert(inventory_matches(inv@, cur_m));
                    }
                },
                None => {
                    let ghost old_inv = inv@;
                    inv.push(
                        FontPageCount {
                            font: PdfFont { base_font: f.base_font.clone(), size: f.size },
                            count: 1,
                        },
                    );
                    proof {
                        assert(!m_before.dom().contains(f@)) by {
                            if m_before.dom().contains(f@) {
                                let a = choose|a: int|
                                    0 <= a < old_inv.len() && #[trigger] old_inv[a].font@ == f@;
                            }
                        }
                        assert(!m0.dom().contains(f@));
                        cur_m = cur_m.insert(f@, 1nat);
                        assert(inv@[old_inv.len() as int].font@ == f@);
                        assert forall|k: PdfFontV| #[trigger]
                            cur_m.dom().contains(k) implies exists|a: int|
                            0 <= a < inv@.len() && #[trigger] inv@[a].font@ == k by {
                            if k != f@ {
                                let a = choose|a: int|
                                    0 <= a < old_inv.len() && #[trigger] old_inv[a].font@ == k;
                                assert(inv@[a].font@ == k);
                            }
                        }
                        assert(inventory_matches(inv@, cur_m));
                    }
                },
            }
            proof {
                let ghost s0 = pv@.take(t as int);
                let ghost s1 = pv@.take(t as int + 1);
                assert(s1 =~= s0.push(pv@[t as int]));
                assert(s1[t as int]@ == f@);
                assert forall|k: PdfFontV|
                    font_set(s1).contains(k) == font_set(s0).insert(f@).contains(k) by {
                    if font_set(s0).contains(k) {
                        let a = choose|a: int| 0 <= a < s0.len() && #[trigger] s0[a]@ == k;
                        assert(s1[a]@ == k);
                    }
                    if font_set(s1).contains(k) {
                        let a = choose|a: int| 0 <= a < s1.len() && #[trigger] s1[a]@ == k;
                        if a < s0.len() {
                            assert(s0[a]@ == k);
                        } else {
                            assert(k == f@);
                        }
                    }
                }
                assert(font_set(s1) =~= font_set(s0).insert(f@));
                let ghost target = add_page_counts(m0, font_set(s1));
                assert forall|k: PdfFontV| cur_m.dom().contains(k) == target.dom().contains(k)
                    && (target.dom().contains(k) ==> cur_m[k] == target[k]) by {
                    if k != f@ {
                        assert(font_set(s1).contains(k) == font_set(s0).contains(k));
                    }
                }
                assert(cur_m =~= target);
            }
            t = t + 1;
        }
        proof {
            assert(pv@.take(pv@.len() as int) =~= pv@);
            assert(cur_m == add_page_counts(m0, font_set(pv@)));
        }
        i = i + 1;
    }
    proof {
        assert(pages@.skip(pages@.len() as int) =~= Seq::<Page>::empty());
    }
    Ok(inv)
}

} // verus!
