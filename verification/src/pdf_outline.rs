use vstd::prelude::*;
use std::io::Write;
use vstd::string::StringExecFns;

verus! {

/// One outline entry: a 1-based destination page number, a title, and the
/// ordered children one level down. Within any sibling sequence the page
/// numbers are non-decreasing, because entries are appended as pages are
/// scanned in ascending order.
pub struct PdfOutlineEntry {
    pub page_number: u32,
    pub title: String,
    pub children: Vec<PdfOutlineEntry>,
}

/// An outline: the ordered sequence of top-level entries.
pub type PdfOutline = Vec<PdfOutlineEntry>;

/// Mathematical value of an outline entry.
#[verifier::ext_equal]
pub struct EntryV {
    pub page_number: u32,
    pub title: Seq<char>,
    pub children: Seq<EntryV>,
}

/// The mathematical value of one entry, children included.
pub open spec fn entry_view(e: PdfOutlineEntry) -> EntryV
    decreases e,
{
    EntryV { page_number: e.page_number, title: e.title@, children: entries_view(e.children@) }
}

/// The mathematical value of a sibling sequence.
pub open spec fn entries_view(s: Seq<PdfOutlineEntry>) -> Seq<EntryV>
    decreases s,
{
    if s.len() == 0 {
        Seq::empty()
    } else {
        seq![entry_view(s[0])] + entries_view(s.drop_first())
    }
}

pub proof fn lemma_entries_view_len(s: Seq<PdfOutlineEntry>)
    ensures
        entries_view(s).len() == s.len(),
    decreases s.len(),
{
    if s.len() > 0 {
        lemma_entries_view_len(s.drop_first());
    }
}

pub proof fn lemma_entries_view_index(s: Seq<PdfOutlineEntry>, i: int)
    requires
        0 <= i < s.len(),
    ensures
        entries_view(s).len() == s.len(),
        entries_view(s)[i] == entry_view(s[i]),
    decreases s.len(),
{
    lemma_entries_view_len(s);
    if i > 0 {
        lemma_entries_view_index(s.drop_first(), i - 1);
    }
}

pub proof fn lemma_entries_view_push(s: Seq<PdfOutlineEntry>, e: PdfOutlineEntry)
    ensures
        entries_view(s.push(e)) =~= entries_view(s).push(entry_view(e)),
{
    lemma_entries_view_len(s);
    lemma_entries_view_len(s.push(e));
    assert forall|i: int| 0 <= i < s.len() + 1 implies entries_view(s.push(e))[i] == entries_view(
        s,
    ).push(entry_view(e))[i] by {
        lemma_entries_view_index(s.push(e), i);
        if i < s.len() {
            lemma_entries_view_index(s, i);
            assert(s.push(e)[i] == s[i]);
        } else {
            assert(s.push(e)[i] == e);
        }
    }
}

pub proof fn lemma_entries_view_update(s: Seq<PdfOutlineEntry>, i: int, e: PdfOutlineEntry)
    requires
        0 <= i < s.len(),
    ensures
        entries_view(s.update(i, e)) =~= entries_view(s).update(i, entry_view(e)),
{
    lemma_entries_view_len(s);
    lemma_entries_view_len(s.update(i, e));
    assert forall|q: int| 0 <= q < s.len() implies entries_view(s.update(i, e))[q] == entries_view(
        s,
    ).update(i, entry_view(e))[q] by {
        lemma_entries_view_index(s.update(i, e), q);
        if q != i {
            lemma_entries_view_index(s, q);
            assert(s.update(i, e)[q] == s[q]);
        } else {
            assert(s.update(i, e)[q] == e);
        }
    }
}

impl PdfOutlineEntry {
    /// A fresh entry with no children yet.
    pub fn new(page_number: u32, title: String) -> (r: Self)
        ensures
            entry_view(r) == (EntryV { page_number, title: title@, children: Seq::empty() }),
    {
        let r = Self { page_number, title, children: Vec::<PdfOutlineEntry>::new() };
        proof {
            assert(entries_view(r.children@) =~= Seq::<EntryV>::empty());
            assert(entry_view(r) =~= (EntryV {
                page_number,
                title: r.title@,
                children: Seq::empty(),
            }));
        }
        r
    }
}

/// A sibling sequence whose page numbers never decrease.
pub open spec fn group_nondecreasing(s: Seq<EntryV>) -> bool {
    forall|i: int, j: int|
        #![trigger s[i], s[j]]
        0 <= i < j < s.len() ==> s[i].page_number <= s[j].page_number
}

/// Within every sibling sequence of the forest, page numbers never
/// decrease.
pub open spec fn forest_ordered(s: Seq<EntryV>) -> bool
    decreases s,
{
    if s.len() == 0 {
        true
    } else {
        group_nondecreasing(s) && forest_ordered(s[0].children) && forest_ordered(s.drop_first())
    }
}

/// No entry of the forest lies `d` or more levels down.
pub open spec fn forest_within(s: Seq<EntryV>, d: nat) -> bool
    decreases s,
{
    if s.len() == 0 {
        true
    } else {
        d >= 1 && forest_within(s[0].children, (d - 1) as nat) && forest_within(
            s.drop_first(),
            d,
        )
    }
}

/// Every entry exactly `d` levels down has a page number at most `p`.
pub open spec fn level_bounded(s: Seq<EntryV>, d: nat, p: u32) -> bool
    decreases s,
{
    if s.len() == 0 {
        true
    } else if d == 0 {
        s[0].page_number <= p && level_bounded(s.drop_first(), d, p)
    } else {
        level_bounded(s[0].children, (d - 1) as nat, p) && level_bounded(s.drop_first(), d, p)
    }
}

/// Every page number in the forest is 1-based.
pub open spec fn pages_positive(s: Seq<EntryV>) -> bool
    decreases s,
{
    if s.len() == 0 {
        true
    } else {
        s[0].page_number >= 1 && pages_positive(s[0].children) && pages_positive(s.drop_first())
    }
}

/// The decimal digits of `n`, most significant first.
pub open spec fn dec_str(n: nat) -> Seq<char>
    decreases n,
{
    if n < 10 {
        seq![digit_char(n)]
    } else {
        dec_str(n / 10).push(digit_char(n % 10))
    }
}

/// The digit character for a value below ten.
pub open spec fn digit_char(d: nat) -> char {
    ((48 + d) as u8) as char
}

/// One rendered line per entry: the indent, the title, two spaces, the
/// page number, a line break; then the children, indented one space more.
pub open spec fn rendered_entry(e: EntryV, indent: Seq<char>) -> Seq<char>
    decreases e,
{
    indent + e.title + seq![' ', ' '] + dec_str(e.page_number as nat) + seq!['\n']
        + rendered_entries(e.children, indent.push(' '))
}

/// The rendering of a sibling sequence, in order.
pub open spec fn rendered_entries(s: Seq<EntryV>, indent: Seq<char>) -> Seq<char>
    decreases s,
{
    if s.len() == 0 {
        Seq::empty()
    } else {
        rendered_entry(s[0], indent) + rendered_entries(s.drop_first(), indent)
    }
}

proof fn lemma_rendered_entries_snoc(s: Seq<EntryV>, e: EntryV, indent: Seq<char>)
    ensures
        rendered_entries(s.push(e), indent) =~= rendered_entries(s, indent) + rendered_entry(
            e,
            indent,
        ),
    decreases s.len(),
{
    if s.len() == 0 {
        assert(s.push(e).drop_first() =~= Seq::<EntryV>::empty());
        assert(s.push(e)[0] == e);
        assert(rendered_entries(s.push(e), indent) =~= rendered_entry(e, indent)
            + rendered_entries(Seq::<EntryV>::empty(), indent));
    } else {
        assert(s.push(e).drop_first() =~= s.drop_first().push(e));
        lemma_rendered_entries_snoc(s.drop_first(), e, indent);
        assert(s.push(e)[0] == s[0]);
        assert(rendered_entries(s.push(e), indent) =~= rendered_entry(s[0], indent) + (
        rendered_entries(s.drop_first(), indent) + rendered_entry(e, indent)));
    }
}

/// Relies on the std `Display` implementation for `u32`, through the
/// `format!` macro: the decimal digits of the value.
#[verifier::external_body]
fn u32_to_string(n: u32) -> (r: String)
    ensures
        r@ == dec_str(n as nat),
{
    format!("{}", n)
}

/// Relies on std::io::Stdout: writes the text to standard output, ignoring
/// a write failure as printing does.
#[verifier::external_body]
fn print_text(s: &String) {
    let _ = write!(std::io::stdout(), "{}", s);
}

fn render_entry_into(out: &mut String, e: &PdfOutlineEntry, indent: &String)
    ensures
        final(out)@ == old(out)@ + rendered_entry(entry_view(*e), indent@),
    decreases *e,
{
    out.append(indent.as_str());
    out.append(e.title.as_str());
    out.append("  ");
    let num = u32_to_string(e.page_number);
    out.append(num.as_str());
    out.append("\n");
    proof {
        reveal_strlit("  ");
        reveal_strlit("\n");
    }
    let ghost base = out@;
    let mut deeper = indent.clone();
    deeper.append(" ");
    proof {
        reveal_strlit(" ");
        assert(deeper@ =~= indent@.push(' '));
    }
    let ghost cs = entries_view(e.children@);
    let mut j: usize = 0;
    proof {
        lemma_entries_view_len(e.children@);
        assert(cs.take(0) =~= Seq::<EntryV>::empty());
    }
    while j < e.children.len()
        invariant
            j <= e.children@.len(),
            cs.len() == e.children@.len(),
            cs == entries_view(e.children@),
            deeper@ == indent@.push(' '),
            out@ == base + rendered_entries(cs.take(j as int), deeper@),
        decreases e.children@.len() - j,
    {
        render_entry_into(out, &e.children[j], &deeper);
        proof {
            lemma_entries_view_index(e.children@, j as int);
            assert(cs.take(j as int + 1) =~= cs.take(j as int).push(cs[j as int]));
            lemma_rendered_entries_snoc(cs.take(j as int), cs[j as int], deeper@);
        }
        j = j + 1;
    }
    proof {
        assert(cs.take(e.children@.len() as int) =~= cs);
        assert(base + rendered_entries(cs, deeper@) =~= old(out)@ + rendered_entry(
            entry_view(*e),
            indent@,
        ));
    }
}

/// The text `print_outline` writes: one line per entry, children indented
/// below their parent.
pub fn render_outline(outline: &PdfOutline) -> (r: String)
    ensures
        r@ == rendered_entries(entries_view(outline@), Seq::empty()),
{
    let mut out = String::new();
    let indent = String::new();
    let ghost tv = entries_view(outline@);
    let mut j: usize = 0;
    proof {
        lemma_entries_view_len(outline@);
        assert(tv.take(0) =~= Seq::<EntryV>::empty());
        assert(out@ =~= Seq::<char>::empty() + rendered_entries(tv.take(0), indent@));
    }
    while j < outline.len()
        invariant
            j <= outline@.len(),
            tv.len() == outline@.len(),
            tv == entries_view(outline@),
            indent@ == Seq::<char>::empty(),
            out@ == rendered_entries(tv.take(j as int), indent@),
        decreases outline@.len() - j,
    {
        render_entry_into(&mut out, &outline[j], &indent);
        proof {
            lemma_entries_view_index(outline@, j as int);
            assert(tv.take(j as int + 1) =~= tv.take(j as int).push(tv[j as int]));
            lemma_rendered_entries_snoc(tv.take(j as int), tv[j as int], indent@);
        }
        j = j + 1;
    }
    proof {
        assert(tv.take(outline@.len() as int) =~= tv);
    }
    out
}

/// Prints the outline to standard output, each entry on its own line,
/// children indented below their parent.
pub fn print_outline(outline: &PdfOutline) {
    let s = render_outline(outline);
    print_text(&s);
}

} // verus!
