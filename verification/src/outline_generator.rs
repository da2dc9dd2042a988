use vstd::prelude::*;
use vstd::string::StringExecFns;

use crate::content::{is_font_kind, is_show_kind, ArrayElem, Op, OpKind, Operand, Page};
use crate::font_reader::{font_after_op, update_font_from_operation};
use crate::pdf_font::{default_font, PdfFont, PdfFontV};
use crate::pdf_outline::{
    forest_ordered, forest_within, group_nondecreasing, level_bounded, pages_positive,
    entries_view, entry_view, lemma_entries_view_index, lemma_entries_view_len,
    lemma_entries_view_push, lemma_entries_view_update, EntryV, PdfOutline, PdfOutlineEntry,
};

verus! {

/// The text operand of a show operator at position `i`, or nothing when it
/// is missing or not text (that observation is skipped).
pub open spec fn text_operand(os: Seq<Operand>, i: int) -> Seq<char> {
    if 0 <= i < os.len() {
        match os[i] {
            Operand::Text(s) => s@,
            _ => Seq::empty(),
        }
    } else {
        Seq::empty()
    }
}

/// The first text run of a show-array operand; trailing kerned fragments
/// are deliberately dropped.
pub open spec fn array_first_text(os: Seq<Operand>) -> Seq<char> {
    if os.len() > 0 {
        match os[0] {
            Operand::Array(a) => if a@.len() > 0 {
                match a@[0] {
                    ArrayElem::Text(s) => s@,
                    ArrayElem::Other => Seq::empty(),
                }
            } else {
                Seq::empty()
            },
            _ => Seq::empty(),
        }
    } else {
        Seq::empty()
    }
}

/// The text a show operator contributes to a heading run: operand 0 for
/// the two plain show variants, operand 2 for the spacing variant, the
/// first array element for the array variant.
pub open spec fn shown_text(op: Op) -> Seq<char> {
    match op.kind {
        OpKind::ShowText | OpKind::ShowTextNewline => text_operand(op.operands@, 0),
        OpKind::ShowTextSpaced => text_operand(op.operands@, 2),
        OpKind::ShowTextArray => array_first_text(op.operands@),
        _ => Seq::empty(),
    }
}

/// The title of the first uninterrupted run of text shown in `target`,
/// scanning `ops` with current font `cur` and `acc` accumulated so far:
/// text shown while the current font equals the target is appended; a
/// font-changing operator ends a non-empty run; an interpreter error while
/// the run has not started means no match for this page and font.
pub open spec fn title_run(
    target: PdfFontV,
    cur: PdfFontV,
    acc: Seq<char>,
    ops: Seq<Op>,
    res: Seq<crate::content::ResourceEntry>,
) -> Option<Seq<char>>
    decreases ops.len(),
{
    if ops.len() == 0 {
        if acc.len() > 0 {
            Some(acc)
        } else {
            None
        }
    } else {
        let op = ops[0];
        if is_font_kind(op.kind) {
            if acc.len() > 0 {
                Some(acc)
            } else {
                match font_after_op(cur, op, res) {
                    Ok(c2) => title_run(target, c2, acc, ops.drop_first(), res),
                    Err(_) => None,
                }
            }
        } else if is_show_kind(op.kind) && cur == target {
            title_run(target, cur, acc + shown_text(op), ops.drop_first(), res)
        } else {
            title_run(target, cur, acc, ops.drop_first(), res)
        }
    }
}

/// The heading-run title a page yields for a font, starting from the
/// default font state: font state never carries over between pages.
pub open spec fn page_title_for(p: Page, f: PdfFontV) -> Option<Seq<char>> {
    title_run(f, default_font(), Seq::empty(), p.ops@, p.resources@)
}

fn extract_shown_text<'a>(op: &'a Op) -> (r: Option<&'a String>)
    ensures
        match r {
            Some(s) => s@ == shown_text(*op),
            None => shown_text(*op) == Seq::<char>::empty(),
        },
{
    match op.kind {
        OpKind::ShowText | OpKind::ShowTextNewline => {
            if op.operands.len() > 0 {
                match &op.operands[0] {
                    Operand::Text(s) => Some(s),
                    _ => None,
                }
            } else {
                None
            }
        },
        OpKind::ShowTextSpaced => {
            if op.operands.len() > 2 {
                match &op.operands[2] {
                    Operand::Text(s) => Some(s),
                    _ => None,
                }
            } else {
                None
            }
        },
        OpKind::ShowTextArray => {
            if op.operands.len() > 0 {
                match &op.operands[0] {
                    Operand::Array(a) => {
                        if a.len() > 0 {
                            match &a[0] {
                                ArrayElem::Text(s) => Some(s),
                                ArrayElem::Other => None,
                            }
                        } else {
                            None
                        }
                    },
                    _ => None,
                }
            } else {
                None
            }
        },
        _ => None,
    }
}

/// Scans one page for the first uninterrupted run of text shown in `font`
/// and returns its accumulated title, or nothing when the page has no such
/// run or its interpretation fails before the run starts.
pub fn get_first_instance_on_page(page: &Page, font: &PdfFont) -> (r: Option<String>)
    ensures
        match r {
            Some(s) => page_title_for(*page, font@) == Some(s@),
            None => page_title_for(*page, font@) is None,
        },
{
    let mut first_instance = String::new();
    let mut cur = PdfFont::default();
    let mut j: usize = 0;
    proof {
        assert(page.ops@.skip(0) =~= page.ops@);
    }
    while j < page.ops.len()
        invariant
            j <= page.ops@.len(),
            title_run(font@, cur@, first_instance@, page.ops@.skip(j as int), page.resources@)
                == page_title_for(*page, font@),
        decreases page.ops@.len() - j,
    {
        let op = &page.ops[j];
        proof {
            assert(page.ops@.skip(j as int)[0] == page.ops@[j as int]);
            assert(page.ops@.skip(j as int).drop_first() =~= page.ops@.skip(j as int + 1));
        }
        match op.kind {
            OpKind::SetMatrix | OpKind::SetFont => {
                if !first_instance.as_str().is_empty() {
                    return Some(first_instance);
                }
                match update_font_from_operation(&mut cur, op, &page.resources) {
                    Ok(()) => {},
                    Err(_) => {
                        return None;
                    },
                }
            },
            OpKind::ShowText | OpKind::ShowTextNewline | OpKind::ShowTextSpaced
                | OpKind::ShowTextArray => {
                if &cur == font {
                    match extract_shown_text(op) {
                        Some(s) => {
                            first_instance.append(s.as_str());
                        },
                        None => {
                            proof {
                                assert(first_instance@ + shown_text(page.ops@[j as int])
                                    =~= first_instance@);
                            }
                        },
                    }
                }
            },
            _ => {},
        }
        j = j + 1;
    }
    proof {
        assert(page.ops@.skip(page.ops@.len() as int) =~= Seq::<Op>::empty());
    }
    if !first_instance.as_str().is_empty() {
        Some(first_instance)
    } else {
        None
    }
}

/// The index of the last sibling whose page number is at or before `page`,
/// scanning the sequence in order and taking the last qualifying one.
pub open spec fn last_at_or_before(s: Seq<EntryV>, page: u32) -> Option<int>
    decreases s.len(),
{
    if s.len() == 0 {
        None
    } else if s[s.len() - 1].page_number <= page {
        Some(s.len() - 1)
    } else {
        last_at_or_before(s.drop_last(), page)
    }
}

/// Walks `depth` levels down from `siblings`, at each level descending
/// into the last sibling at or before the entry's page, and appends the
/// entry there; nothing changes when some level has no qualifying sibling
/// (the entry is dropped for want of an ancestor).
pub open spec fn try_place(siblings: Seq<EntryV>, depth: nat, e: EntryV) -> Option<Seq<EntryV>>
    decreases depth,
{
    if depth == 0 {
        Some(siblings.push(e))
    } else {
        match last_at_or_before(siblings, e.page_number) {
            None => None,
            Some(i) => match try_place(siblings[i].children, (depth - 1) as nat, e) {
                None => None,
                Some(ch) => Some(
                    siblings.update(
                        i,
                        EntryV {
                            page_number: siblings[i].page_number,
                            title: siblings[i].title,
                            children: ch,
                        },
                    ),
                ),
            },
        }
    }
}

fn find_parent_index(siblings: &Vec<PdfOutlineEntry>, page: u32) -> (r: Option<usize>)
    ensures
        match r {
            Some(i) => i < siblings@.len() && last_at_or_before(entries_view(siblings@), page)
                == Some(i as int),
            None => last_at_or_before(entries_view(siblings@), page) is None,
        },
{
    let ghost v = entries_view(siblings@);
    let mut i: usize = siblings.len();
    proof {
        lemma_entries_view_len(siblings@);
        assert(v.take(i as int) =~= v);
    }
    while i > 0
        invariant
            i <= siblings@.len(),
            v == entries_view(siblings@),
            v.len() == siblings@.len(),
            last_at_or_before(v, page) == last_at_or_before(v.take(i as int), page),
        decreases i,
    {
        i = i - 1;
        proof {
            lemma_entries_view_index(siblings@, i as int);
            assert(v.take(i as int + 1)[i as int] == v[i as int]);
            assert(v.take(i as int + 1).drop_last() =~= v.take(i as int));
        }
        if siblings[i].page_number <= page {
            return Some(i);
        }
    }
    proof {
        assert(v.take(0) =~= Seq::<EntryV>::empty());
    }
    None
}

/// Appends `entry` `depth` levels down, or leaves the outline unchanged
/// and reports failure when no qualifying ancestor exists at some level.
fn place_entry(siblings: &mut Vec<PdfOutlineEntry>, depth: usize, entry: PdfOutlineEntry) -> (placed:
    bool)
    ensures
        match try_place(entries_view(old(siblings)@), depth as nat, entry_view(entry)) {
            Some(t) => placed && entries_view(final(siblings)@) == t,
            None => !placed && entries_view(final(siblings)@) == entries_view(old(siblings)@),
        },
    decreases depth,
{
    if depth == 0 {
        let ghost olds = siblings@;
        proof {
            lemma_entries_view_push(olds, entry);
        }
        siblings.push(entry);
        true
    } else {
        match find_parent_index(siblings, entry.page_number) {
            None => false,
            Some(ix) => {
                let ghost olds = siblings@;
                let ghost oldv = entries_view(olds);
                proof {
                    lemma_entries_view_index(olds, ix as int);
                }
                let removed = siblings.remove(ix);
                let PdfOutlineEntry { page_number, title, children: mut ch } = removed;
                let ghost oldch = ch@;
                let placed = place_entry(&mut ch, depth - 1, entry);
                let node = PdfOutlineEntry { page_number, title, children: ch };
                siblings.insert(ix, node);
                proof {
                    assert(siblings@ =~= olds.update(ix as int, node));
                    lemma_entries_view_update(olds, ix as int, node);
                    assert(entry_view(node).page_number == oldv[ix as int].page_number);
                    assert(entry_view(node).title == oldv[ix as int].title);
                    assert(oldv[ix as int].children == entries_view(oldch));
                    match try_place(entries_view(oldch), (depth - 1) as nat, entry_view(entry)) {
                        Some(t) => {
                            assert(entries_view(ch@) == t);
                            assert(entries_view(siblings@) =~= oldv.update(
                                ix as int,
                                EntryV {
                                    page_number: oldv[ix as int].page_number,
                                    title: oldv[ix as int].title,
                                    children: t,
                                },
                            ));
                        },
                        None => {
                            assert(entries_view(ch@) == entries_view(oldch));
                            assert(entry_view(node) =~= oldv[ix as int]);
                            assert(entries_view(siblings@) =~= oldv.update(
                                ix as int,
                                oldv[ix as int],
                            ));
                            assert(oldv.update(ix as int, oldv[ix as int]) =~= oldv);
                        },
                    }
                }
                placed
            },
        }
    }
}

/// One page processed for one depth: each font of the depth's set that
/// yields a heading run adds an entry; a drop for want of an ancestor
/// abandons the rest of the page's fonts.
pub open spec fn gen_page_fonts(
    tree: Seq<EntryV>,
    depth: nat,
    p: Page,
    fonts: Seq<PdfFont>,
) -> Seq<EntryV>
    decreases fonts.len(),
{
    if fonts.len() == 0 {
        tree
    } else {
        match page_title_for(p, fonts[0]@) {
            None => gen_page_fonts(tree, depth, p, fonts.drop_first()),
            Some(title) => {
                let e = EntryV { page_number: p.number, title, children: Seq::empty() };
                match try_place(tree, depth, e) {
                    None => tree,
                    Some(t2) => gen_page_fonts(t2, depth, p, fonts.drop_first()),
                }
            },
        }
    }
}

/// All pages processed in order for one depth.
pub open spec fn gen_pages(
    tree: Seq<EntryV>,
    depth: nat,
    pages: Seq<Page>,
    fonts: Seq<PdfFont>,
) -> Seq<EntryV>
    decreases pages.len(),
{
    if pages.len() == 0 {
        tree
    } else {
        gen_pages(gen_page_fonts(tree, depth, pages[0], fonts), depth, pages.drop_first(), fonts)
    }
}

/// The depths processed from `depth` up: depths past the third set are
/// never processed, whatever the assignment's length.
pub open spec fn gen_from_depth(
    tree: Seq<EntryV>,
    pages: Seq<Page>,
    assignment: Seq<Vec<PdfFont>>,
    depth: nat,
) -> Seq<EntryV>
    decreases 3 - depth,
{
    if depth >= assignment.len() || depth >= 3 {
        tree
    } else {
        gen_from_depth(
            gen_pages(tree, depth, pages, assignment[depth as int]@),
            pages,
            assignment,
            depth + 1,
        )
    }
}

/// The outline generated for a heading-font assignment: never an error;
/// pages whose interpretation fails and entries without a qualifying
/// ancestor are silently left out.
pub open spec fn generated_outline(pages: Seq<Page>, assignment: Seq<Vec<PdfFont>>) -> Seq<
    EntryV,
> {
    gen_from_depth(Seq::empty(), pages, assignment, 0)
}

proof fn lemma_last_at_or_before_bounds(s: Seq<EntryV>, p: u32)
    ensures
        match last_at_or_before(s, p) {
            Some(i) => 0 <= i < s.len() && s[i].page_number <= p,
            None => true,
        },
    decreases s.len(),
{
    if s.len() > 0 && s[s.len() - 1].page_number > p {
        lemma_last_at_or_before_bounds(s.drop_last(), p);
    }
}

proof fn lemma_forest_ordered_parts(s: Seq<EntryV>, i: int)
    requires
        forest_ordered(s),
        0 <= i < s.len(),
    ensures
        group_nondecreasing(s),
        forest_ordered(s[i].children),
    decreases s.len(),
{
    if i > 0 {
        lemma_forest_ordered_parts(s.drop_first(), i - 1);
    }
    if s.len() > 0 {
        assert(group_nondecreasing(s));
    }
}

proof fn lemma_forest_ordered_snoc(s: Seq<EntryV>, e: EntryV)
    requires
        forest_ordered(s),
        forest_ordered(e.children),
        group_nondecreasing(s.push(e)),
    ensures
        forest_ordered(s.push(e)),
    decreases s.len(),
{
    if s.len() == 0 {
        assert(s.push(e)[0] == e);
        assert(s.push(e).drop_first() =~= Seq::<EntryV>::empty());
        assert(forest_ordered(s.push(e).drop_first()));
    } else {
        assert(s.push(e)[0] == s[0]);
        assert(s.push(e).drop_first() =~= s.drop_first().push(e));
        assert(group_nondecreasing(s.drop_first().push(e))) by {
            assert forall|a: int, b: int|
                #![trigger s.drop_first().push(e)[a], s.drop_first().push(e)[b]]
                0 <= a < b < s.len() implies s.drop_first().push(e)[a].page_number
                <= s.drop_first().push(e)[b].page_number by {
                assert(s.drop_first().push(e)[a] == s.push(e)[a + 1]);
                assert(s.drop_first().push(e)[b] == s.push(e)[b + 1]);
            }
        }
        lemma_forest_ordered_snoc(s.drop_first(), e);
        assert(forest_ordered(s.push(e).drop_first()));
    }
}

proof fn lemma_forest_ordered_update(s: Seq<EntryV>, i: int, x: EntryV)
    requires
        forest_ordered(s),
        0 <= i < s.len(),
        x.page_number == s[i].page_number,
        forest_ordered(x.children),
    ensures
        forest_ordered(s.update(i, x)),
    decreases s.len(),
{
    let t = s.update(i, x);
    assert(group_nondecreasing(t)) by {
        assert forall|a: int, b: int|
            #![trigger t[a], t[b]]
            0 <= a < b < t.len() implies t[a].page_number <= t[b].page_number by {
            assert(t[a].page_number == s[a].page_number);
            assert(t[b].page_number == s[b].page_number);
        }
    }
    if i == 0 {
        assert(t[0] == x);
        assert(t.drop_first() =~= s.drop_first());
    } else {
        assert(t[0] == s[0]);
        assert(t.drop_first() =~= s.drop_first().update(i - 1, x));
        lemma_forest_ordered_update(s.drop_first(), i - 1, x);
    }
}

proof fn lemma_forest_within_parts(s: Seq<EntryV>, i: int, d: nat)
    requires
        forest_within(s, d),
        0 <= i < s.len(),
    ensures
        d >= 1,
        forest_within(s[i].children, (d - 1) as nat),
    decreases s.len(),
{
    if i > 0 {
        lemma_forest_within_parts(s.drop_first(), i - 1, d);
    }
}

proof fn lemma_forest_within_snoc(s: Seq<EntryV>, e: EntryV, d: nat)
    requires
        forest_within(s, d),
        d >= 1,
        forest_within(e.children, (d - 1) as nat),
    ensures
        forest_within(s.push(e), d),
    decreases s.len(),
{
    if s.len() == 0 {
        assert(s.push(e)[0] == e);
        assert(s.push(e).drop_first() =~= Seq::<EntryV>::empty());
        assert(forest_within(s.push(e).drop_first(), d));
    } else {
        assert(s.push(e)[0] == s[0]);
        assert(s.push(e).drop_first() =~= s.drop_first().push(e));
        lemma_forest_within_snoc(s.drop_first(), e, d);
        assert(forest_within(s.push(e).drop_first(), d));
    }
}

proof fn lemma_forest_within_update(s: Seq<EntryV>, i: int, x: EntryV, d: nat)
    requires
        forest_within(s, d),
        0 <= i < s.len(),
        d >= 1,
        forest_within(x.children, (d - 1) as nat),
    ensures
        forest_within(s.update(i, x), d),
    decreases s.len(),
{
    let t = s.update(i, x);
    if i == 0 {
        assert(t[0] == x);
        assert(t.drop_first() =~= s.drop_first());
    } else {
        assert(t[0] == s[0]);
        assert(t.drop_first() =~= s.drop_first().update(i - 1, x));
        lemma_forest_within_update(s.drop_first(), i - 1, x, d);
    }
}

proof fn lemma_forest_within_mono(s: Seq<EntryV>, d1: nat, d2: nat)
    requires
        forest_within(s, d1),
        d1 <= d2,
    ensures
        forest_within(s, d2),
    decreases s,
{
    if s.len() > 0 {
        lemma_forest_within_mono(s[0].children, (d1 - 1) as nat, (d2 - 1) as nat);
        lemma_forest_within_mono(s.drop_first(), d1, d2);
    }
}

proof fn lemma_level_bounded_parts(s: Seq<EntryV>, i: int, d: nat, p: u32)
    requires
        level_bounded(s, d, p),
        0 <= i < s.len(),
    ensures
        d == 0 ==> s[i].page_number <= p,
        d >= 1 ==> level_bounded(s[i].children, (d - 1) as nat, p),
    decreases s.len(),
{
    if i > 0 {
        lemma_level_bounded_parts(s.drop_first(), i - 1, d, p);
    }
}

proof fn lemma_level_bounded_snoc(s: Seq<EntryV>, e: EntryV, d: nat, p: u32)
    requires
        level_bounded(s, d, p),
        d == 0 ==> e.page_number <= p,
        d >= 1 ==> level_bounded(e.children, (d - 1) as nat, p),
    ensures
        level_bounded(s.push(e), d, p),
    decreases s.len(),
{
    if s.len() == 0 {
        assert(s.push(e)[0] == e);
        assert(s.push(e).drop_first() =~= Seq::<EntryV>::empty());
        assert(level_bounded(s.push(e).drop_first(), d, p));
    } else {
        assert(s.push(e)[0] == s[0]);
        assert(s.push(e).drop_first() =~= s.drop_first().push(e));
        lemma_level_bounded_snoc(s.drop_first(), e, d, p);
        assert(level_bounded(s.push(e).drop_first(), d, p));
    }
}

proof fn lemma_level_bounded_update(s: Seq<EntryV>, i: int, x: EntryV, d: nat, p: u32)
    requires
        level_bounded(s, d, p),
        0 <= i < s.len(),
        d == 0 ==> x.page_number <= p,
        d >= 1 ==> level_bounded(x.children, (d - 1) as nat, p),
    ensures
        level_bounded(s.update(i, x), d, p),
    decreases s.len(),
{
    let t = s.update(i, x);
    if i == 0 {
        assert(t[0] == x);
        assert(t.drop_first() =~= s.drop_first());
    } else {
        assert(t[0] == s[0]);
        assert(t.drop_first() =~= s.drop_first().update(i - 1, x));
        lemma_level_bounded_update(s.drop_first(), i - 1, x, d, p);
    }
}

proof fn lemma_level_bounded_mono(s: Seq<EntryV>, d: nat, p1: u32, p2: u32)
    requires
        level_bounded(s, d, p1),
        p1 <= p2,
    ensures
        level_bounded(s, d, p2),
    decreases s,
{
    if s.len() > 0 {
        if d >= 1 {
            lemma_level_bounded_mono(s[0].children, (d - 1) as nat, p1, p2);
        }
        lemma_level_bounded_mono(s.drop_first(), d, p1, p2);
    }
}

proof fn lemma_within_implies_bounded(s: Seq<EntryV>, d: nat, p: u32)
    requires
        forest_within(s, d),
    ensures
        level_bounded(s, d, p),
    decreases s,
{
    if s.len() > 0 {
        lemma_within_implies_bounded(s[0].children, (d - 1) as nat, p);
        lemma_within_implies_bounded(s.drop_first(), d, p);
    }
}

/// An appended entry keeps every sibling sequence non-decreasing, the
/// depth bound, and the page bound at its own level.
proof fn lemma_try_place_preserves(tree: Seq<EntryV>, d: nat, e: EntryV, cap: nat)
    requires
        forest_ordered(tree),
        level_bounded(tree, d, e.page_number),
        forest_within(tree, cap),
        d + 1 <= cap,
        e.children.len() == 0,
    ensures
        match try_place(tree, d, e) {
            None => true,
            Some(t) => forest_ordered(t) && level_bounded(t, d, e.page_number) && forest_within(
                t,
                cap,
            ),
        },
    decreases d,
{
    if d == 0 {
        let t = tree.push(e);
        assert(group_nondecreasing(t)) by {
            assert forall|a: int, b: int|
                #![trigger t[a], t[b]]
                0 <= a < b < t.len() implies t[a].page_number <= t[b].page_number by {
                if b < tree.len() {
                    lemma_forest_ordered_parts(tree, b);
                    assert(t[a] == tree[a] && t[b] == tree[b]);
                } else {
                    assert(t[b] == e);
                    lemma_level_bounded_parts(tree, a, 0, e.page_number);
                    assert(t[a] == tree[a]);
                }
            }
        }
        lemma_forest_ordered_snoc(tree, e);
        lemma_level_bounded_snoc(tree, e, 0, e.page_number);
        lemma_forest_within_snoc(tree, e, cap);
    } else {
        lemma_last_at_or_before_bounds(tree, e.page_number);
        match last_at_or_before(tree, e.page_number) {
            None => {},
            Some(i) => {
                lemma_forest_ordered_parts(tree, i);
                lemma_forest_within_parts(tree, i, cap);
                lemma_level_bounded_parts(tree, i, d, e.page_number);
                lemma_try_place_preserves(
                    tree[i].children,
                    (d - 1) as nat,
                    e,
                    (cap - 1) as nat,
                );
                match try_place(tree[i].children, (d - 1) as nat, e) {
                    None => {},
                    Some(ch) => {
                        let x = EntryV {
                            page_number: tree[i].page_number,
                            title: tree[i].title,
                            children: ch,
                        };
                        lemma_forest_ordered_update(tree, i, x);
                        lemma_forest_within_update(tree, i, x, cap);
                        lemma_level_bounded_update(tree, i, x, d, e.page_number);
                    },
                }
            },
        }
    }
}

proof fn lemma_gen_page_fonts_preserves(
    tree: Seq<EntryV>,
    d: nat,
    p: Page,
    fonts: Seq<PdfFont>,
    cap: nat,
)
    requires
        forest_ordered(tree),
        level_bounded(tree, d, p.number),
        forest_within(tree, cap),
        d + 1 <= cap,
    ensures
        forest_ordered(gen_page_fonts(tree, d, p, fonts)),
        level_bounded(gen_page_fonts(tree, d, p, fonts), d, p.number),
        forest_within(gen_page_fonts(tree, d, p, fonts), cap),
    decreases fonts.len(),
{
    if fonts.len() > 0 {
        match page_title_for(p, fonts[0]@) {
            None => {
                lemma_gen_page_fonts_preserves(tree, d, p, fonts.drop_first(), cap);
            },
            Some(title) => {
                let e = EntryV { page_number: p.number, title, children: Seq::empty() };
                lemma_try_place_preserves(tree, d, e, cap);
                match try_place(tree, d, e) {
                    None => {},
                    Some(t2) => {
                        lemma_gen_page_fonts_preserves(t2, d, p, fonts.drop_first(), cap);
                    },
                }
            },
        }
    }
}

proof fn lemma_gen_pages_preserves(
    tree: Seq<EntryV>,
    d: nat,
    pages: Seq<Page>,
    fonts: Seq<PdfFont>,
    cap: nat,
)
    requires
        forest_ordered(tree),
        forest_within(tree, cap),
        d + 1 <= cap,
        pages.len() > 0 ==> level_bounded(tree, d, pages[0].number),
        forall|i: int, j: int|
            #![trigger pages[i], pages[j]]
            0 <= i < j < pages.len() ==> pages[i].number <= pages[j].number,
    ensures
        forest_ordered(gen_pages(tree, d, pages, fonts)),
        forest_within(gen_pages(tree, d, pages, fonts), cap),
    decreases pages.len(),
{
    if pages.len() > 0 {
        let t1 = gen_page_fonts(tree, d, pages[0], fonts);
        lemma_gen_page_fonts_preserves(tree, d, pages[0], fonts, cap);
        let rest = pages.drop_first();
        if rest.len() > 0 {
            assert(rest[0] == pages[1]);
            lemma_level_bounded_mono(t1, d, pages[0].number, rest[0].number);
        }
        assert(forall|i: int, j: int|
            #![trigger rest[i], rest[j]]
            0 <= i < j < rest.len() ==> rest[i].number <= rest[j].number) by {
            assert forall|i: int, j: int|
                #![trigger rest[i], rest[j]]
                0 <= i < j < rest.len() implies rest[i].number <= rest[j].number by {
                assert(rest[i] == pages[i + 1]);
                assert(rest[j] == pages[j + 1]);
            }
        }
        lemma_gen_pages_preserves(t1, d, rest, fonts, cap);
    }
}

proof fn lemma_gen_from_depth_preserves(
    tree: Seq<EntryV>,
    pages: Seq<Page>,
    assignment: Seq<Vec<PdfFont>>,
    d: nat,
)
    requires
        forest_ordered(tree),
        forest_within(tree, d),
        d <= 3,
        forall|i: int, j: int|
            #![trigger pages[i], pages[j]]
            0 <= i < j < pages.len() ==> pages[i].number <= pages[j].number,
    ensures
        forest_ordered(gen_from_depth(tree, pages, assignment, d)),
        forest_within(gen_from_depth(tree, pages, assignment, d), 3),
    decreases 3 - d,
{
    if d >= assignment.len() || d >= 3 {
        lemma_forest_within_mono(tree, d, 3);
    } else {
        lemma_forest_within_mono(tree, d, d + 1);
        if pages.len() > 0 {
            lemma_within_implies_bounded(tree, d, pages[0].number);
        }
        let t1 = gen_pages(tree, d, pages, assignment[d as int]@);
        lemma_gen_pages_preserves(tree, d, pages, assignment[d as int]@, d + 1);
        lemma_gen_from_depth_preserves(t1, pages, assignment, d + 1);
    }
}

/// Provided the pages come in ascending page order, the generated outline
/// keeps every sibling sequence non-decreasing in page number and never
/// nests deeper than three levels.
pub proof fn lemma_generated_outline_invariants(pages: Seq<Page>, assignment: Seq<Vec<PdfFont>>)
    requires
        forall|i: int, j: int|
            #![trigger pages[i], pages[j]]
            0 <= i < j < pages.len() ==> pages[i].number <= pages[j].number,
    ensures
        forest_ordered(generated_outline(pages, assignment)),
        forest_within(generated_outline(pages, assignment), 3),
{
    lemma_gen_from_depth_preserves(Seq::empty(), pages, assignment, 0);
}

proof fn lemma_pages_positive_parts(s: Seq<EntryV>, i: int)
    requires
        pages_positive(s),
        0 <= i < s.len(),
    ensures
        s[i].page_number >= 1,
        pages_positive(s[i].children),
    decreases s.len(),
{
    if i > 0 {
        lemma_pages_positive_parts(s.drop_first(), i - 1);
    }
}

proof fn lemma_pages_positive_snoc(s: Seq<EntryV>, e: EntryV)
    requires
        pages_positive(s),
        e.page_number >= 1,
        pages_positive(e.children),
    ensures
        pages_positive(s.push(e)),
    decreases s.len(),
{
    if s.len() == 0 {
        assert(s.push(e)[0] == e);
        assert(s.push(e).drop_first() =~= Seq::<EntryV>::empty());
        assert(pages_positive(s.push(e).drop_first()));
    } else {
        assert(s.push(e)[0] == s[0]);
        assert(s.push(e).drop_first() =~= s.drop_first().push(e));
        lemma_pages_positive_snoc(s.drop_first(), e);
        assert(pages_positive(s.push(e).drop_first()));
    }
}

proof fn lemma_pages_positive_update(s: Seq<EntryV>, i: int, x: EntryV)
    requires
        pages_positive(s),
        0 <= i < s.len(),
        x.page_number >= 1,
        pages_positive(x.children),
    ensures
        pages_positive(s.update(i, x)),
    decreases s.len(),
{
    let t = s.update(i, x);
    if i == 0 {
        assert(t[0] == x);
        assert(t.drop_first() =~= s.drop_first());
    } else {
        assert(t[0] == s[0]);
        assert(t.drop_first() =~= s.drop_first().update(i - 1, x));
        lemma_pages_positive_update(s.drop_first(), i - 1, x);
    }
}

proof fn lemma_try_place_positive(tree: Seq<EntryV>, d: nat, e: EntryV)
    requires
        pages_positive(tree),
        e.page_number >= 1,
        e.children.len() == 0,
    ensures
        match try_place(tree, d, e) {
            None => true,
            Some(t) => pages_positive(t),
        },
    decreases d,
{
    if d == 0 {
        lemma_pages_positive_snoc(tree, e);
    } else {
        lemma_last_at_or_before_bounds(tree, e.page_number);
        match last_at_or_before(tree, e.page_number) {
            None => {},
            Some(i) => {
                lemma_pages_positive_parts(tree, i);
                lemma_try_place_positive(tree[i].children, (d - 1) as nat, e);
                match try_place(tree[i].children, (d - 1) as nat, e) {
                    None => {},
                    Some(ch) => {
                        let x = EntryV {
                            page_number: tree[i].page_number,
                            title: tree[i].title,
                            children: ch,
                        };
                        lemma_pages_positive_update(tree, i, x);
                    },
                }
            },
        }
    }
}

proof fn lemma_gen_page_fonts_positive(
    tree: Seq<EntryV>,
    d: nat,
    p: Page,
    fonts: Seq<PdfFont>,
)
    requires
        pages_positive(tree),
        p.number >= 1,
    ensures
        pages_positive(gen_page_fonts(tree, d, p, fonts)),
    decreases fonts.len(),
{
    if fonts.len() > 0 {
        match page_title_for(p, fonts[0]@) {
            None => {
                lemma_gen_page_fonts_positive(tree, d, p, fonts.drop_first());
            },
            Some(title) => {
                let e = EntryV { page_number: p.number, title, children: Seq::empty() };
                lemma_try_place_positive(tree, d, e);
                match try_place(tree, d, e) {
                    None => {},
                    Some(t2) => {
                        lemma_gen_page_fonts_positive(t2, d, p, fonts.drop_first());
                    },
                }
            },
        }
    }
}

proof fn lemma_gen_pages_positive(
    tree: Seq<EntryV>,
    d: nat,
    pages: Seq<Page>,
    fonts: Seq<PdfFont>,
)
    requires
        pages_positive(tree),
        forall|i: int| 0 <= i < pages.len() ==> (#[trigger] pages[i]).number >= 1,
    ensures
        pages_positive(gen_pages(tree, d, pages, fonts)),
    decreases pages.len(),
{
    if pages.len() > 0 {
        let t1 = gen_page_fonts(tree, d, pages[0], fonts);
        lemma_gen_page_fonts_positive(tree, d, pages[0], fonts);
        let rest = pages.drop_first();
        assert(forall|i: int| 0 <= i < rest.len() ==> (#[trigger] rest[i]).number >= 1) by {
            assert forall|i: int| 0 <= i < rest.len() implies (#[trigger] rest[i]).number
                >= 1 by {
                assert(rest[i] == pages[i + 1]);
            }
        }
        lemma_gen_pages_positive(t1, d, rest, fonts);
    }
}

proof fn lemma_gen_from_depth_positive(
    tree: Seq<EntryV>,
    pages: Seq<Page>,
    assignment: Seq<Vec<PdfFont>>,
    d: nat,
)
    requires
        pages_positive(tree),
        forall|i: int| 0 <= i < pages.len() ==> (#[trigger] pages[i]).number >= 1,
    ensures
        pages_positive(gen_from_depth(tree, pages, assignment, d)),
    decreases 3 - d,
{
    if !(d >= assignment.len() || d >= 3) {
        let t1 = gen_pages(tree, d, pages, assignment[d as int]@);
        lemma_gen_pages_positive(tree, d, pages, assignment[d as int]@);
        lemma_gen_from_depth_positive(t1, pages, assignment, d + 1);
    }
}

/// Provided the document's page numbers are 1-based, so are all page
/// numbers of the generated outline: the generated tree satisfies the
/// serializer's demand on destinations.
pub proof fn lemma_generated_outline_pages_positive(
    pages: Seq<Page>,
    assignment: Seq<Vec<PdfFont>>,
)
    requires
        forall|i: int| 0 <= i < pages.len() ==> (#[trigger] pages[i]).number >= 1,
    ensures
        pages_positive(generated_outline(pages, assignment)),
{
    lemma_gen_from_depth_positive(Seq::empty(), pages, assignment, 0);
}

/// Builds the outline tree: for each depth up to three and each page in
/// order, each font of the depth's set that yields a heading run on the
/// page adds an entry under the last sibling at or before that page on
/// every level above it.
pub fn generate_outline(pages: &Vec<Page>, heading_fonts: &Vec<Vec<PdfFont>>) -> (r: PdfOutline)
    ensures
        entries_view(r@) == generated_outline(pages@, heading_fonts@),
{
    let mut outline: PdfOutline = Vec::new();
    let mut depth: usize = 0;
    proof {
        assert(entries_view(outline@) =~= Seq::<EntryV>::empty());
    }
    while depth < heading_fonts.len() && depth < 3
        invariant
            depth <= 3,
            gen_from_depth(entries_view(outline@), pages@, heading_fonts@, depth as nat)
                == generated_outline(pages@, heading_fonts@),
        decreases 3 - depth,
    {
        let fonts = &heading_fonts[depth];
        let ghost tree0 = entries_view(outline@);
        let mut pi: usize = 0;
        proof {
            assert(pages@.skip(0) =~= pages@);
        }
        while pi < pages.len()
            invariant
                pi <= pages@.len(),
                depth < heading_fonts@.len(),
                depth < 3,
                fonts == &heading_fonts@[depth as int],
                gen_pages(entries_view(outline@), depth as nat, pages@.skip(pi as int), fonts@)
                    == gen_pages(tree0, depth as nat, pages@, fonts@),
                gen_from_depth(tree0, pages@, heading_fonts@, depth as nat) == generated_outline(
                    pages@,
                    heading_fonts@,
                ),
            decreases pages@.len() - pi,
        {
            let page = &pages[pi];
            proof {
                assert(pages@.skip(pi as int)[0] == pages@[pi as int]);
                assert(pages@.skip(pi as int).drop_first() =~= pages@.skip(pi as int + 1));
            }
            let ghost tree1 = entries_view(outline@);
            let mut fi: usize = 0;
            let mut dropped = false;
            proof {
                assert(fonts@.skip(0) =~= fonts@);
            }
            while fi < fonts.len() && !dropped
                invariant
                    fi <= fonts@.len(),
                    depth < 3,
                    page == &pages@[pi as int],
                    pi < pages@.len(),
                    !dropped ==> gen_page_fonts(
                        entries_view(outline@),
                        depth as nat,
                        pages@[pi as int],
                        fonts@.skip(fi as int),
                    ) == gen_page_fonts(tree1, depth as nat, pages@[pi as int], fonts@),
                    dropped ==> entries_view(outline@) == gen_page_fonts(
                        tree1,
                        depth as nat,
                        pages@[pi as int],
                        fonts@,
                    ),
                decreases fonts@.len() - fi,
            {
                let font = &fonts[fi];
                proof {
                    assert(fonts@.skip(fi as int)[0] == fonts@[fi as int]);
                    assert(fonts@.skip(fi as int).drop_first() =~= fonts@.skip(fi as int + 1));
                }
                match get_first_instance_on_page(page, font) {
                    Some(title) => {
                        let entry = PdfOutlineEntry::new(page.number, title);
                        let placed = place_entry(&mut outline, depth, entry);
                        if !placed {
                            dropped = true;
                        }
                    },
                    None => {},
                }
                fi = fi + 1;
            }
            proof {
                if !dropped {
                    assert(fonts@.skip(fonts@.len() as int) =~= Seq::<PdfFont>::empty());
                }
            }
            pi = pi + 1;
        }
        proof {
            assert(pages@.skip(pages@.len() as int) =~= Seq::<Page>::empty());
        }
        depth = depth + 1;
    }
    outline
}

} // verus!
