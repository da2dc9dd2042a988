use vstd::prelude::*;

verus! {

/// One distinguishable font usage on a page: a base font name together with
/// the pair of effective scale factors (horizontal, vertical) under which
/// text was shown.
///
/// Scale factors are carried as order-preserving integer keys: the host
/// application maps every scale value it reads out of a document to an
/// integer such that the numeric order of the scales is the order of the
/// keys. The library only compares scales, for equality and for order, so
/// any order-preserving encoding serves.
pub struct PdfFont {
    /// Base font name, as resolved through the page's resource mapping.
    pub base_font: String,
    /// (horizontal, vertical) scale keys.
    pub size: (u32, u32),
}

/// Mathematical value of a `PdfFont`.
#[verifier::ext_equal]
pub struct PdfFontV {
    pub base_font: Seq<char>,
    pub size: (u32, u32),
}

impl View for PdfFont {
    type V = PdfFontV;

    open spec fn view(&self) -> PdfFontV {
        PdfFontV { base_font: self.base_font@, size: self.size }
    }
}

/// The initial font state at the start of every page: empty name, zero
/// scales.
pub open spec fn default_font() -> PdfFontV {
    PdfFontV { base_font: Seq::empty(), size: (0u32, 0u32) }
}

impl Default for PdfFont {
    fn default() -> (r: Self)
        ensures
            r@ == default_font(),
    {
        PdfFont { base_font: String::new(), size: (0, 0) }
    }
}

impl PdfFont {
    pub fn new(base_font: String, size: (u32, u32)) -> (r: Self)
        ensures
            r@ == (PdfFontV { base_font: base_font@, size }),
    {
        PdfFont { size, base_font }
    }

    pub fn set_size(&mut self, size: (u32, u32))
        ensures
            final(self)@ == (PdfFontV { base_font: old(self)@.base_font, size }),
    {
        self.size = size
    }

    pub fn set_base_font(&mut self, base_font: String)
        ensures
            final(self)@ == (PdfFontV { base_font: base_font@, size: old(self)@.size }),
    {
        self.base_font = base_font
    }
}

impl PartialEq for PdfFont {
    fn eq(&self, other: &Self) -> (r: bool)
        ensures
            r == (self@ == other@),
    {
        let r = self.base_font == other.base_font && self.size.0 == other.size.0
            && self.size.1 == other.size.1;
        proof {
            if r {
                assert(self@ == other@);
            }
        }
        r
    }
}

impl vstd::std_specs::cmp::PartialEqSpecImpl for PdfFont {
    open spec fn obeys_eq_spec() -> bool {
        true
    }

    open spec fn eq_spec(&self, other: &Self) -> bool {
        self@ == other@
    }
}

/// Strict byte-wise lexicographic order.
pub open spec fn bytes_lt(a: Seq<u8>, b: Seq<u8>) -> bool
    decreases a.len(),
{
    if b.len() == 0 {
        false
    } else if a.len() == 0 {
        true
    } else if a[0] != b[0] {
        a[0] < b[0]
    } else {
        bytes_lt(a.drop_first(), b.drop_first())
    }
}

/// Name order: lexicographic on the UTF-8 bytes of the name, the order std
/// gives `str` values.
pub open spec fn name_lt(a: Seq<char>, b: Seq<char>) -> bool {
    bytes_lt(vstd::utf8::encode_utf8(a), vstd::utf8::encode_utf8(b))
}

/// The display order of fonts: the largest size sorts first (scale pairs
/// compared lexicographically, descending), and fonts of equal size are
/// ordered by name, ascending.
pub open spec fn font_sorts_before(a: PdfFontV, b: PdfFontV) -> bool {
    if a.size.0 != b.size.0 {
        a.size.0 > b.size.0
    } else if a.size.1 != b.size.1 {
        a.size.1 > b.size.1
    } else {
        name_lt(a.base_font, b.base_font)
    }
}

/// Among two fonts that agree on name and horizontal scale, the one with
/// the larger vertical scale sorts first.
pub proof fn lemma_taller_font_sorts_first(a: PdfFontV, b: PdfFontV)
    requires
        a.base_font == b.base_font,
        a.size.0 == b.size.0,
        a.size.1 > b.size.1,
    ensures
        font_sorts_before(a, b),
{
}

proof fn lemma_bytes_lt_common_prefix(a: Seq<u8>, b: Seq<u8>, i: int)
    requires
        0 <= i <= a.len(),
        i <= b.len(),
        forall|j: int| 0 <= j < i ==> a[j] == b[j],
    ensures
        bytes_lt(a, b) == bytes_lt(a.skip(i), b.skip(i)),
    decreases i,
{
    if i > 0 {
        assert(a.len() > 0 && b.len() > 0);
        assert(a[0] == b[0]);
        lemma_bytes_lt_common_prefix(a.drop_first(), b.drop_first(), i - 1);
        assert(a.drop_first().skip(i - 1) =~= a.skip(i));
        assert(b.drop_first().skip(i - 1) =~= b.skip(i));
    } else {
        assert(a.skip(0) =~= a);
        assert(b.skip(0) =~= b);
    }
}

/// Byte-wise lexicographic comparison of two names.
fn name_bytes_lt(a: &String, b: &String) -> (r: bool)
    ensures
        r == name_lt(a@, b@),
{
    let ab = a.as_str().as_bytes();
    let bb = b.as_str().as_bytes();
    let mut i: usize = 0;
    loop
        invariant
            i <= ab@.len(),
            i <= bb@.len(),
            ab@ == vstd::utf8::encode_utf8(a@),
            bb@ == vstd::utf8::encode_utf8(b@),
            forall|j: int| 0 <= j < i ==> ab@[j] == bb@[j],
        decreases ab@.len() - i,
    {
        proof {
            lemma_bytes_lt_common_prefix(ab@, bb@, i as int);
        }
        if i >= ab.len() || i >= bb.len() {
            // one name is a prefix of the other: the shorter sorts first
            return ab.len() < bb.len();
        }
        let x = ab[i];
        let y = bb[i];
        if x != y {
            assert(ab@.skip(i as int)[0] == ab@[i as int]);
            assert(bb@.skip(i as int)[0] == bb@[i as int]);
            return x < y;
        }
        i = i + 1;
    }
}

/// The display comparator: `true` when `a` stands strictly before `b`.
pub fn sorts_before(a: &PdfFont, b: &PdfFont) -> (r: bool)
    ensures
        r == font_sorts_before(a@, b@),
{
    if a.size.0 != b.size.0 {
        a.size.0 > b.size.0
    } else if a.size.1 != b.size.1 {
        a.size.1 > b.size.1
    } else {
        name_bytes_lt(&a.base_font, &b.base_font)
    }
}

proof fn lemma_bytes_lt_asymmetric(a: Seq<u8>, b: Seq<u8>)
    requires
        bytes_lt(a, b),
    ensures
        !bytes_lt(b, a),
    decreases a.len(),
{
    if a.len() > 0 && b.len() > 0 && a[0] == b[0] {
        lemma_bytes_lt_asymmetric(a.drop_first(), b.drop_first());
    }
}

proof fn lemma_bytes_lt_transitive(a: Seq<u8>, b: Seq<u8>, c: Seq<u8>)
    requires
        bytes_lt(a, b),
        bytes_lt(b, c),
    ensures
        bytes_lt(a, c),
    decreases a.len(),
{
    if a.len() > 0 && a[0] == b[0] && b[0] == c[0] {
        lemma_bytes_lt_transitive(a.drop_first(), b.drop_first(), c.drop_first());
    }
}

proof fn lemma_bytes_lt_connected(a: Seq<u8>, b: Seq<u8>)
    ensures
        bytes_lt(a, b) || bytes_lt(b, a) || a == b,
    decreases a.len(),
{
    if a.len() == 0 && b.len() == 0 {
        assert(a =~= b);
    } else if a.len() > 0 && b.len() > 0 && a[0] == b[0] {
        lemma_bytes_lt_connected(a.drop_first(), b.drop_first());
        if a.drop_first() == b.drop_first() {
            assert(a.drop_first().len() == a.len() - 1);
            assert(b.drop_first().len() == b.len() - 1);
            assert(a.len() == b.len());
            assert forall|q: int| 0 <= q < a.len() implies a[q] == b[q] by {
                if q > 0 {
                    assert(a[q] == a.drop_first()[q - 1]);
                    assert(b[q] == b.drop_first()[q - 1]);
                }
            }
            assert(a =~= b);
        }
    }
}

/// The order is strict: no two fonts each sort before the other.
pub proof fn lemma_order_asymmetric(a: PdfFontV, b: PdfFontV)
    requires
        font_sorts_before(a, b),
    ensures
        !font_sorts_before(b, a),
{
    if a.size == b.size {
        lemma_bytes_lt_asymmetric(
            vstd::utf8::encode_utf8(a.base_font),
            vstd::utf8::encode_utf8(b.base_font),
        );
    }
}

/// The order chains: a font before a second that is before a third is
/// before the third.
pub proof fn lemma_order_transitive(a: PdfFontV, b: PdfFontV, c: PdfFontV)
    requires
        font_sorts_before(a, b),
        font_sorts_before(b, c),
    ensures
        font_sorts_before(a, c),
{
    if a.size == b.size && b.size == c.size {
        lemma_bytes_lt_transitive(
            vstd::utf8::encode_utf8(a.base_font),
            vstd::utf8::encode_utf8(b.base_font),
            vstd::utf8::encode_utf8(c.base_font),
        );
    }
}

/// The order is total: of two distinct fonts, one sorts before the other.
pub proof fn lemma_order_connected(a: PdfFontV, b: PdfFontV)
    ensures
        font_sorts_before(a, b) || font_sorts_before(b, a) || a == b,
{
    if a.size == b.size {
        lemma_bytes_lt_connected(
            vstd::utf8::encode_utf8(a.base_font),
            vstd::utf8::encode_utf8(b.base_font),
        );
        if vstd::utf8::encode_utf8(a.base_font) == vstd::utf8::encode_utf8(b.base_font) {
            vstd::utf8::encode_utf8_decode_utf8(a.base_font);
            vstd::utf8::encode_utf8_decode_utf8(b.base_font);
            assert(a.base_font == b.base_font);
            assert(a =~= b);
        }
    }
}

/// A font list in display order: no later font sorts strictly before an
/// earlier one.
pub open spec fn fonts_sorted(s: Seq<PdfFont>) -> bool {
    forall|a: int, b: int| 0 <= a < b < s.len() ==> !font_sorts_before(s[b]@, s[a]@)
}

/// Sorts a font list into display order, keeping exactly the same fonts.
pub fn sort_fonts(fonts: &mut Vec<PdfFont>)
    ensures
        fonts_sorted(final(fonts)@),
        final(fonts)@.to_multiset() == old(fonts)@.to_multiset(),
{
    let mut i: usize = 0;
    while i < fonts.len()
        invariant
            i <= fonts@.len(),
            fonts@.len() == old(fonts)@.len(),
            fonts_sorted(fonts@.take(i as int)),
            fonts@.to_multiset() == old(fonts)@.to_multiset(),
        decreases fonts@.len() - i,
    {
        let mut j: usize = i;
        proof {
            assert forall|a: int, b: int|
                #![trigger fonts@[a], fonts@[b]]
                0 <= a < b <= i && b != j implies !font_sorts_before(fonts@[b]@, fonts@[a]@) by {
                assert(fonts@.take(i as int)[a] == fonts@[a]);
                assert(fonts@.take(i as int)[b] == fonts@[b]);
            }
        }
        while j > 0 && sorts_before(&fonts[j], &fonts[j - 1])
            invariant
                j <= i,
                i < fonts@.len(),
                fonts@.len() == old(fonts)@.len(),
                fonts@.to_multiset() == old(fonts)@.to_multiset(),
                forall|a: int, b: int|
                    0 <= a < b <= i && b != j ==> !font_sorts_before(fonts@[b]@, fonts@[a]@),
                forall|b: int|
                    j < b <= i ==> font_sorts_before(fonts@[j as int]@, #[trigger] fonts@[b]@),
            decreases j,
        {
            let ghost v = fonts@;
            let x = fonts.remove(j);
            let ghost v1 = fonts@;
            fonts.insert(j - 1, x);
            proof {
                let w = fonts@;
                // the two neighbours changed places
                assert(w =~= v.update(j as int, v[j as int - 1]).update(j as int - 1, v[j as int]));
                assert(w[j as int - 1] == v[j as int] && w[j as int] == v[j as int - 1]);
                assert(forall|q: int| 0 <= q < v.len() && q != j && q != j - 1 ==> w[q] == v[q]);
                // the same fonts, as a multiset
                v.to_multiset_ensures();
                vstd::seq_lib::to_multiset_insert(v1, j as int - 1, x);
                assert(v.to_multiset().contains(v[j as int]));
                assert(w.to_multiset() =~= v.to_multiset());
                // every pair but those through the new hole stays ordered
                lemma_order_asymmetric(v[j as int]@, v[j as int - 1]@);
                assert forall|a: int, b: int|
                    0 <= a < b <= i && b != j - 1 implies !font_sorts_before(w[b]@, w[a]@) by {
                    if b == j {
                        if a == j - 1 {
                            assert(w[b] == v[j as int - 1] && w[a] == v[j as int]);
                        } else {
                            assert(w[b] == v[j as int - 1] && w[a] == v[a]);
                        }
                    } else {
                        if a == j - 1 {
                            assert(w[a] == v[j as int]);
                            assert(font_sorts_before(v[j as int]@, v[b]@));
                            lemma_order_asymmetric(v[j as int]@, v[b]@);
                        } else if a == j {
                            assert(w[a] == v[j as int - 1] && w[b] == v[b]);
                        } else {
                            assert(w[a] == v[a] && w[b] == v[b]);
                        }
                    }
                }
                // everything to the right of the hole stays after the
                // element still moving left
                assert forall|b: int|
                    j - 1 < b <= i implies font_sorts_before(
                    w[j as int - 1]@,
                    #[trigger] w[b]@,
                ) by {
                    if b == j {
                        assert(w[b] == v[j as int - 1]);
                    } else {
                        assert(w[b] == v[b]);
                        assert(font_sorts_before(v[j as int]@, v[b]@));
                    }
                }
            }
            j = j - 1;
        }
        proof {
            let v = fonts@;
            if j > 0 {
                // the element came to rest: nothing before it sorts after it
                assert(!font_sorts_before(v[j as int]@, v[j as int - 1]@));
            }
            assert forall|a: int| 0 <= a < j implies !font_sorts_before(
                v[j as int]@,
                #[trigger] v[a]@,
            ) by {
                if font_sorts_before(v[j as int]@, v[a]@) {
                    if a == j - 1 {
                        // contradicts the loop's exit test
                        assert(false);
                    } else {
                        assert(!font_sorts_before(v[j as int - 1]@, v[a]@));
                        lemma_order_connected(v[a]@, v[j as int - 1]@);
                        if font_sorts_before(v[a]@, v[j as int - 1]@) {
                            lemma_order_transitive(v[j as int]@, v[a]@, v[j as int - 1]@);
                        } else {
                            assert(v[a]@ == v[j as int - 1]@);
                        }
                        assert(false);
                    }
                }
            }
            assert forall|a: int, b: int|
                #![trigger v.take(i as int + 1)[a], v.take(i as int + 1)[b]]
                0 <= a < b < i + 1 implies !font_sorts_before(
                v.take(i as int + 1)[b]@,
                v.take(i as int + 1)[a]@,
            ) by {
                if b != j {
                    assert(!font_sorts_before(v[b]@, v[a]@));
                } else {
                    assert(!font_sorts_before(v[j as int]@, v[a]@));
                }
            }
            assert(fonts_sorted(v.take(i as int + 1)));
        }
        i = i + 1;
    }
    proof {
        assert(fonts@.take(fonts@.len() as int) =~= fonts@);
    }
}

} // verus!
