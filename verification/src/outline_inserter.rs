use vstd::prelude::*;

use crate::content::PdfError;
use crate::pdf_outline::{
    entries_view, entry_view, lemma_entries_view_index, lemma_entries_view_len, pages_positive,
    EntryV, PdfOutline, PdfOutlineEntry,
};

verus! {

/// One persisted outline node, as the serializer writes it into the host
/// document's object store. Nodes are indexed by allocation order; the
/// synthetic root is not among them.
pub struct OutlineNode {
    pub title: String,
    /// The parent node's index; a top-level node's parent is the synthetic
    /// root.
    pub parent: Option<usize>,
    /// 1-based page number; the written destination addresses page
    /// `page_number - 1`.
    pub page_number: u32,
    pub first: Option<usize>,
    pub last: Option<usize>,
    /// Negated immediate-child count, present exactly when children
    /// exist: negative is the host format's sign for "present but
    /// collapsed".
    pub count: Option<i64>,
    pub prev: Option<usize>,
    pub next: Option<usize>,
}

/// Mathematical value of a node record.
#[verifier::ext_equal]
pub struct OutlineNodeV {
    pub title: Seq<char>,
    pub parent: Option<int>,
    pub page_number: u32,
    pub first: Option<int>,
    pub last: Option<int>,
    pub count: Option<int>,
    pub prev: Option<int>,
    pub next: Option<int>,
}

pub open spec fn opt_int(o: Option<usize>) -> Option<int> {
    match o {
        Some(v) => Some(v as int),
        None => None,
    }
}

pub open spec fn opt_i64(o: Option<i64>) -> Option<int> {
    match o {
        Some(v) => Some(v as int),
        None => None,
    }
}

impl View for OutlineNode {
    type V = OutlineNodeV;

    open spec fn view(&self) -> OutlineNodeV {
        OutlineNodeV {
            title: self.title@,
            parent: opt_int(self.parent),
            page_number: self.page_number,
            first: opt_int(self.first),
            last: opt_int(self.last),
            count: opt_i64(self.count),
            prev: opt_int(self.prev),
            next: opt_int(self.next),
        }
    }
}

pub open spec fn nodes_view(s: Seq<OutlineNode>) -> Seq<OutlineNodeV> {
    Seq::new(s.len(), |i: int| s[i]@)
}

/// The number of records an entry's subtree occupies: itself and all
/// descendants.
pub open spec fn subtree_size(e: EntryV) -> int
    decreases e,
{
    1 + group_size(e.children)
}

/// The number of records a sibling group occupies.
pub open spec fn group_size(s: Seq<EntryV>) -> int
    decreases s,
{
    if s.len() == 0 {
        0
    } else {
        subtree_size(s[0]) + group_size(s.drop_first())
    }
}

pub proof fn lemma_subtree_size_pos(e: EntryV)
    ensures
        subtree_size(e) >= 1 + e.children.len(),
    decreases e,
{
    lemma_group_size_nonneg(e.children);
}

pub proof fn lemma_group_size_nonneg(s: Seq<EntryV>)
    ensures
        group_size(s) >= s.len(),
    decreases s,
{
    if s.len() > 0 {
        lemma_subtree_size_pos(s[0]);
        lemma_group_size_nonneg(s.drop_first());
    }
}

pub proof fn lemma_group_size_snoc(s: Seq<EntryV>, e: EntryV)
    ensures
        group_size(s.push(e)) == group_size(s) + subtree_size(e),
    decreases s.len(),
{
    if s.len() == 0 {
        assert(s.push(e)[0] == e);
        assert(s.push(e).drop_first() =~= Seq::<EntryV>::empty());
        assert(group_size(s) == 0);
        assert(group_size(Seq::<EntryV>::empty()) == 0);
        assert(group_size(s.push(e)) == subtree_size(s.push(e)[0]) + group_size(
            s.push(e).drop_first(),
        ));
    } else {
        assert(s.push(e)[0] == s[0]);
        assert(s.push(e).drop_first() =~= s.drop_first().push(e));
        lemma_group_size_snoc(s.drop_first(), e);
        assert(group_size(s.push(e)) == subtree_size(s.push(e)[0]) + group_size(
            s.push(e).drop_first(),
        ));
        assert(group_size(s) == subtree_size(s[0]) + group_size(s.drop_first()));
    }
}

pub proof fn lemma_group_size_split(s: Seq<EntryV>, i: int)
    requires
        0 <= i < s.len(),
    ensures
        group_size(s) == group_size(s.take(i)) + subtree_size(s[i]) + group_size(s.skip(i + 1)),
    decreases i,
{
    if i == 0 {
        assert(s.take(0) =~= Seq::<EntryV>::empty());
        assert(s.skip(1) =~= s.drop_first());
    } else {
        lemma_group_size_split(s.drop_first(), i - 1);
        assert(s.take(i)[0] == s[0]);
        assert(s.take(i).drop_first() =~= s.drop_first().take(i - 1));
        assert(s.drop_first()[i - 1] == s[i]);
        assert(s.drop_first().skip(i) =~= s.skip(i + 1));
    }
}

/// The record the serializer writes for an entry allocated at `id`: its
/// title and parent, its destination page, First/Last/Count exactly when
/// it has children (First the child allocated right after it, Last the
/// child after all earlier children's subtrees, Count the negated child
/// count), and its sibling links.
pub open spec fn node_record(
    e: EntryV,
    id: int,
    parent: Option<int>,
    prev: Option<int>,
    next: Option<int>,
) -> OutlineNodeV {
    OutlineNodeV {
        title: e.title,
        parent,
        page_number: e.page_number,
        first: if e.children.len() > 0 {
            Some(id + 1)
        } else {
            None
        },
        last: if e.children.len() > 0 {
            Some(id + 1 + group_size(e.children.drop_last()))
        } else {
            None
        },
        count: if e.children.len() > 0 {
            Some(-(e.children.len() as int))
        } else {
            None
        },
        prev,
        next,
    }
}

/// The records starting at `base` hold exactly the sibling group
/// `siblings` under `parent`, each entry followed by its subtree: the
/// first sibling's Prev is `prev`, the last sibling's Next is
/// `next_of_last`, consecutive siblings point at each other.
pub open spec fn group_recorded(
    ns: Seq<OutlineNodeV>,
    base: int,
    parent: Option<int>,
    siblings: Seq<EntryV>,
    prev: Option<int>,
    next_of_last: Option<int>,
) -> bool
    decreases siblings,
{
    if siblings.len() == 0 {
        true
    } else {
        let e = siblings[0];
        let sz = subtree_size(e);
        let next = if siblings.len() > 1 {
            Some(base + sz)
        } else {
            next_of_last
        };
        &&& 0 <= base < ns.len()
        &&& ns[base] == node_record(e, base, parent, prev, next)
        &&& group_recorded(ns, base + 1, Some(base), e.children, None, None)
        &&& group_recorded(ns, base + sz, parent, siblings.drop_first(), Some(base), next_of_last)
    }
}

/// What a group's records say only about positions `base` up to
/// `base + group_size`: records elsewhere do not matter.
pub proof fn lemma_group_recorded_frame(
    ns1: Seq<OutlineNodeV>,
    ns2: Seq<OutlineNodeV>,
    base: int,
    parent: Option<int>,
    siblings: Seq<EntryV>,
    prev: Option<int>,
    next_of_last: Option<int>,
)
    requires
        group_recorded(ns1, base, parent, siblings, prev, next_of_last),
        base + group_size(siblings) <= ns2.len(),
        forall|q: int| base <= q < base + group_size(siblings) ==> #[trigger] ns2[q] == ns1[q],
    ensures
        group_recorded(ns2, base, parent, siblings, prev, next_of_last),
    decreases siblings,
{
    if siblings.len() > 0 {
        let e = siblings[0];
        let sz = subtree_size(e);
        lemma_subtree_size_pos(e);
        lemma_group_size_nonneg(e.children);
        lemma_group_size_nonneg(siblings.drop_first());
        assert(group_size(siblings) == sz + group_size(siblings.drop_first()));
        assert(sz == 1 + group_size(e.children));
        assert(ns2[base] == ns1[base]);
        lemma_group_recorded_frame(ns1, ns2, base + 1, Some(base), e.children, None, None);
        lemma_group_recorded_frame(
            ns1,
            ns2,
            base + sz,
            parent,
            siblings.drop_first(),
            Some(base),
            next_of_last,
        );
    }
}

/// Appending one more recorded sibling (and its subtree) to a recorded
/// group whose last Next already points at it extends the group.
pub proof fn lemma_group_recorded_snoc(
    ns: Seq<OutlineNodeV>,
    base: int,
    parent: Option<int>,
    s: Seq<EntryV>,
    e: EntryV,
    prev: Option<int>,
    xnext: Option<int>,
)
    requires
        group_recorded(ns, base, parent, s, prev, Some(base + group_size(s))),
        0 <= base + group_size(s) < ns.len(),
        ns[base + group_size(s)] == node_record(
            e,
            base + group_size(s),
            parent,
            if s.len() == 0 {
                prev
            } else {
                Some(base + group_size(s.drop_last()))
            },
            xnext,
        ),
        group_recorded(ns, base + group_size(s) + 1, Some(base + group_size(s)), e.children, None, None),
    ensures
        group_recorded(ns, base, parent, s.push(e), prev, xnext),
    decreases s.len(),
{
    lemma_group_size_nonneg(s);
    if s.len() == 0 {
        assert(group_size(s) == 0);
        assert(s.push(e)[0] == e);
        assert(s.push(e).drop_first() =~= Seq::<EntryV>::empty());
        assert(group_recorded(
            ns,
            base + subtree_size(e),
            parent,
            s.push(e).drop_first(),
            Some(base),
            xnext,
        ));
    } else {
        let sz0 = subtree_size(s[0]);
        let d = s.drop_first();
        assert(s.push(e)[0] == s[0]);
        assert(s.push(e).drop_first() =~= d.push(e));
        // sizes of the shifted suffix
        assert(group_size(s) == sz0 + group_size(d));
        if d.len() == 0 {
            assert(group_size(d) == 0);
            assert(s.drop_last() =~= Seq::<EntryV>::empty());
            assert(group_size(s.drop_last()) == 0);
        } else {
            assert(s.drop_last()[0] == s[0]);
            assert(s.drop_last().drop_first() =~= d.drop_last());
            assert(group_size(s.drop_last()) == sz0 + group_size(d.drop_last()));
        }
        lemma_group_recorded_snoc(ns, base + sz0, parent, d, e, Some(base), xnext);
        assert(s.push(e).drop_first() =~= d.push(e));
        assert(group_recorded(ns, base + sz0, parent, s.push(e).drop_first(), Some(base), xnext));
    }
}

/// A recorded group occupies positions within the record list.
pub proof fn lemma_group_recorded_bound(
    ns: Seq<OutlineNodeV>,
    base: int,
    parent: Option<int>,
    siblings: Seq<EntryV>,
    prev: Option<int>,
    next_of_last: Option<int>,
)
    requires
        group_recorded(ns, base, parent, siblings, prev, next_of_last),
    ensures
        base + group_size(siblings) <= ns.len() || siblings.len() == 0,
    decreases siblings,
{
    if siblings.len() > 0 {
        let e = siblings[0];
        let sz = subtree_size(e);
        let d = siblings.drop_first();
        assert(group_size(siblings) == sz + group_size(d));
        if d.len() > 0 {
            lemma_group_recorded_bound(ns, base + sz, parent, d, Some(base), next_of_last);
            assert(base + sz + group_size(d) <= ns.len());
        } else {
            assert(group_size(d) == 0);
            assert(sz == 1 + group_size(e.children));
            if e.children.len() > 0 {
                lemma_group_recorded_bound(ns, base + 1, Some(base), e.children, None, None);
                assert(base + 1 + group_size(e.children) <= ns.len());
            } else {
                assert(group_size(e.children) == 0);
                assert(base < ns.len());
            }
        }
    }
}

/// Field bounds a recorded group guarantees: destination pages stay
/// 1-based, every parent link points strictly backwards, every sibling or
/// child link points at a record.
pub proof fn lemma_group_recorded_fields(
    ns: Seq<OutlineNodeV>,
    base: int,
    parent: Option<int>,
    siblings: Seq<EntryV>,
    prev: Option<int>,
)
    requires
        group_recorded(ns, base, parent, siblings, prev, None),
        pages_positive(siblings),
        match parent {
            None => true,
            Some(p) => 0 <= p < base,
        },
        match prev {
            None => true,
            Some(p) => 0 <= p < base,
        },
    ensures
        forall|q: int|
            base <= q < base + group_size(siblings) ==> {
                let n = #[trigger] ns[q];
                &&& n.page_number >= 1
                &&& match n.parent {
                    None => true,
                    Some(p) => 0 <= p < q,
                }
                &&& match n.first {
                    None => true,
                    Some(p) => 0 <= p < ns.len(),
                }
                &&& match n.last {
                    None => true,
                    Some(p) => 0 <= p < ns.len(),
                }
                &&& match n.prev {
                    None => true,
                    Some(p) => 0 <= p < ns.len(),
                }
                &&& match n.next {
                    None => true,
                    Some(p) => 0 <= p < ns.len(),
                }
            },
    decreases siblings,
{
    if siblings.len() > 0 {
        let e = siblings[0];
        let sz = subtree_size(e);
        let d = siblings.drop_first();
        lemma_subtree_size_pos(e);
        lemma_group_size_nonneg(e.children);
        lemma_group_size_nonneg(d);
        lemma_group_recorded_fields(ns, base + 1, Some(base), e.children, None);
        lemma_group_recorded_fields(ns, base + sz, parent, d, Some(base));
        lemma_group_recorded_bound(ns, base + 1, Some(base), e.children, None, None);
        lemma_group_recorded_bound(ns, base + sz, parent, d, Some(base), None);
        if e.children.len() > 0 {
            // the last child's record position is within the children range
            let lastc = e.children.last();
            assert(e.children.drop_last().push(lastc) =~= e.children);
            lemma_group_size_snoc(e.children.drop_last(), lastc);
            lemma_subtree_size_pos(lastc);
            lemma_group_size_nonneg(e.children.drop_last());
        }
        if d.len() > 0 {
            // the next sibling's record is within the suffix range
            lemma_subtree_size_pos(d[0]);
        }
        assert(ns[base] == node_record(
            e,
            base,
            parent,
            prev,
            if siblings.len() > 1 {
                Some(base + sz)
            } else {
                None
            },
        ));
    }
}

fn subtree_size_exec(e: &PdfOutlineEntry) -> (n: usize)
    requires
        subtree_size(entry_view(*e)) <= usize::MAX,
    ensures
        n == subtree_size(entry_view(*e)),
    decreases *e,
{
    let ghost cv = entries_view(e.children@);
    let mut total: usize = 1;
    let mut i: usize = 0;
    proof {
        lemma_entries_view_len(e.children@);
        assert(cv.take(0) =~= Seq::<EntryV>::empty());
        lemma_group_size_nonneg(cv);
    }
    while i < e.children.len()
        invariant
            i <= e.children@.len(),
            cv == entries_view(e.children@),
            cv.len() == e.children@.len(),
            1 + group_size(cv) <= usize::MAX,
            total == 1 + group_size(cv.take(i as int)),
        decreases e.children@.len() - i,
    {
        proof {
            lemma_entries_view_index(e.children@, i as int);
            lemma_group_size_split(cv, i as int);
            lemma_group_size_nonneg(cv.take(i as int));
            lemma_group_size_nonneg(cv.skip(i as int + 1));
            lemma_subtree_size_pos(cv[i as int]);
        }
        let sz = subtree_size_exec(&e.children[i]);
        proof {
            assert(cv.take(i as int + 1) =~= cv.take(i as int).push(cv[i as int]));
            lemma_group_size_snoc(cv.take(i as int), cv[i as int]);
        }
        total = total + sz;
        i = i + 1;
    }
    proof {
        assert(cv.take(cv.len() as int) =~= cv);
    }
    total
}

/// Appends the records for the sibling group `children` under `parent`,
/// each entry followed by its whole subtree, and returns the first
/// sibling's index, the last sibling's index, and the sibling count.
/// Records already present are left untouched.
pub fn insert_outline_entries(
    nodes: &mut Vec<OutlineNode>,
    parent: Option<usize>,
    children: &Vec<PdfOutlineEntry>,
) -> (r: (usize, usize, usize))
    requires
        children@.len() > 0,
        old(nodes)@.len() + group_size(entries_view(children@)) <= usize::MAX,
        group_size(entries_view(children@)) <= i64::MAX,
        match parent {
            None => true,
            Some(p) => p < old(nodes)@.len(),
        },
    ensures
        final(nodes)@.len() == old(nodes)@.len() + group_size(entries_view(children@)),
        forall|q: int| 0 <= q < old(nodes)@.len() ==> final(nodes)@[q] == old(nodes)@[q],
        group_recorded(
            nodes_view(final(nodes)@),
            old(nodes)@.len() as int,
            opt_int(parent),
            entries_view(children@),
            None,
            None,
        ),
        r.0 == old(nodes)@.len(),
        r.1 == old(nodes)@.len() + group_size(entries_view(children@).drop_last()),
        r.2 == children@.len(),
    decreases *children,
{
    let base = nodes.len();
    let ghost cv = entries_view(children@);
    let ghost olds = nodes@;
    let mut prev_opt: Option<usize> = None;
    let mut last: usize = base;
    let mut j: usize = 0;
    proof {
        lemma_entries_view_len(children@);
        assert(cv.take(0) =~= Seq::<EntryV>::empty());
        lemma_group_size_nonneg(cv);
    }
    while j < children.len()
        invariant
            j <= children@.len(),
            cv == entries_view(children@),
            cv.len() == children@.len(),
            children@.len() > 0,
            base == olds.len(),
            base + group_size(cv) <= usize::MAX,
            group_size(cv) <= i64::MAX,
            match parent {
                None => true,
                Some(p) => p < olds.len(),
            },
            nodes@.len() == base + group_size(cv.take(j as int)),
            forall|q: int| 0 <= q < base ==> nodes@[q] == olds[q],
            group_recorded(
                nodes_view(nodes@),
                base as int,
                opt_int(parent),
                cv.take(j as int),
                None,
                if j < children@.len() {
                    Some(base + group_size(cv.take(j as int)))
                } else {
                    None
                },
            ),
            j > 0 ==> last == base + group_size(cv.take(j as int - 1)) && prev_opt == Some(last),
            j == 0 ==> prev_opt is None,
        decreases children@.len() - j,
    {
        let e = &children[j];
        let id = nodes.len();
        proof {
            lemma_entries_view_index(children@, j as int);
            lemma_group_size_split(cv, j as int);
            lemma_group_size_nonneg(cv.take(j as int));
            lemma_group_size_nonneg(cv.skip(j as int + 1));
            lemma_subtree_size_pos(cv[j as int]);
            lemma_entries_view_len(e.children@);
            assert(entry_view(*e) == cv[j as int]);
            assert(entry_view(*e).children == entries_view(e.children@));
        }
        let sz = subtree_size_exec(e);
        let next: Option<usize> = if j + 1 < children.len() {
            Some(id + sz)
        } else {
            None
        };
        let node = if e.children.len() > 0 {
            let ghost ch = entries_view(e.children@);
            proof {
                lemma_entries_view_index(e.children@, e.children@.len() - 1);
                assert(ch.last() == entry_view(e.children@.last()));
                assert(ch.drop_last().push(ch.last()) =~= ch);
                lemma_group_size_snoc(ch.drop_last(), ch.last());
                lemma_subtree_size_pos(ch.last());
                lemma_group_size_nonneg(ch.drop_last());
            }
            let last_sz = subtree_size_exec(&e.children[e.children.len() - 1]);
            OutlineNode {
                title: e.title.clone(),
                parent,
                page_number: e.page_number,
                first: Some(id + 1),
                last: Some(id + sz - last_sz),
                count: Some(-(e.children.len() as i64)),
                prev: prev_opt,
                next,
            }
        } else {
            OutlineNode {
                title: e.title.clone(),
                parent,
                page_number: e.page_number,
                first: None,
                last: None,
                count: None,
                prev: prev_opt,
                next,
            }
        };
        let ghost before_push = nodes@;
        nodes.push(node);
        proof {
            assert(nodes_view(nodes@)[id as int] == node@);
            assert(node@ == node_record(
                cv[j as int],
                id as int,
                opt_int(parent),
                opt_int(prev_opt),
                opt_int(next),
            ));
            lemma_group_recorded_frame(
                nodes_view(before_push),
                nodes_view(nodes@),
                base as int,
                opt_int(parent),
                cv.take(j as int),
                None,
                Some(id as int),
            );
        }
        if e.children.len() > 0 {
            let ghost before_rec = nodes@;
            let _ = insert_outline_entries(nodes, Some(id), &e.children);
            proof {
                lemma_group_recorded_frame(
                    nodes_view(before_rec),
                    nodes_view(nodes@),
                    base as int,
                    opt_int(parent),
                    cv.take(j as int),
                    None,
                    Some(id as int),
                );
                assert(nodes_view(nodes@)[id as int] == node@);
            }
        }
        proof {
            assert(cv.take(j as int + 1) =~= cv.take(j as int).push(cv[j as int]));
            lemma_group_size_snoc(cv.take(j as int), cv[j as int]);
            if j > 0 {
                assert(cv.take(j as int).drop_last() =~= cv.take(j as int - 1));
            }
            lemma_group_recorded_snoc(
                nodes_view(nodes@),
                base as int,
                opt_int(parent),
                cv.take(j as int),
                cv[j as int],
                None,
                opt_int(next),
            );
        }
        prev_opt = Some(id);
        last = id;
        j = j + 1;
    }
    proof {
        assert(cv.take(cv.len() as int) =~= cv);
        assert(cv.take(cv.len() as int - 1) =~= cv.drop_last());
    }
    (base, last, children.len())
}

/// Builds the records for a whole outline: the top-level group under the
/// synthetic root, and the root's First/Last (the indices of the first
/// and last top-level entries) when the outline is not empty.
pub fn build_outline_nodes(outline: &PdfOutline) -> (r: (Vec<OutlineNode>, Option<(usize, usize)>))
    requires
        group_size(entries_view(outline@)) <= usize::MAX,
        group_size(entries_view(outline@)) <= i64::MAX,
    ensures
        r.0@.len() == group_size(entries_view(outline@)),
        group_recorded(nodes_view(r.0@), 0, None, entries_view(outline@), None, None),
        match r.1 {
            Some(fl) => outline@.len() > 0 && fl.0 == 0 && fl.1 == group_size(
                entries_view(outline@).drop_last(),
            ),
            None => outline@.len() == 0,
        },
{
    let mut nodes: Vec<OutlineNode> = Vec::new();
    proof {
        lemma_entries_view_len(outline@);
    }
    if outline.len() == 0 {
        proof {
            assert(entries_view(outline@) =~= Seq::<EntryV>::empty());
        }
        return (nodes, None);
    }
    let (f, l, _) = insert_outline_entries(&mut nodes, None, outline);
    (nodes, Some((f, l)))
}

#[verifier::external_type_specification]
#[verifier::external_body]
pub struct ExDocument(lopdf::Document);

#[verifier::external_type_specification]
#[verifier::external_body]
pub struct ExLopdfError(lopdf::Error);

/// Relies on lopdf::Document::add_object: allocates a fresh object
/// holding a dictionary of type "Outlines", the synthetic root, and
/// returns its id.
#[verifier::external_body]
fn add_outlines_root(doc: &mut lopdf::Document) -> (r: (u32, u16)) {
    let mut d = lopdf::Dictionary::new();
    d.set("Type", lopdf::Object::Name(b"Outlines".to_vec()));
    doc.add_object(d)
}

/// Relies on lopdf::Document::add_object: allocates one outline entry
/// object with its Title, its Parent reference and a destination of the
/// form [page_number - 1, "XYZ", null, null, null]. The destination
/// carries a bare page index rather than a reference to the page's own
/// object; viewers that expect an object reference may not resolve it.
#[verifier::external_body]
fn add_entry_object(
    doc: &mut lopdf::Document,
    title: &String,
    parent: (u32, u16),
    page_number: u32,
) -> (r: (u32, u16))
    requires
        page_number >= 1,
{
    let dest = vec![
        lopdf::Object::Integer((page_number - 1) as i64),
        lopdf::Object::Name(b"XYZ".to_vec()),
        lopdf::Object::Null,
        lopdf::Object::Null,
        lopdf::Object::Null,
    ];
    let mut d = lopdf::Dictionary::new();
    d.set("Title", lopdf::Object::string_literal(title.clone()));
    d.set("Parent", lopdf::Object::Reference(parent));
    d.set("Dest", lopdf::Object::Array(dest));
    doc.add_object(d)
}

/// Relies on lopdf::Document::get_dictionary_mut and Dictionary::set:
/// sets one reference-valued key on an existing object; an id that does
/// not name a dictionary is left alone (the serializer only hands in ids
/// it has just allocated).
#[verifier::external_body]
fn set_entry_ref(doc: &mut lopdf::Document, id: (u32, u16), key: &str, target: (u32, u16)) {
    if let Ok(d) = doc.get_dictionary_mut(id) {
        d.set(key, lopdf::Object::Reference(target));
    }
}

/// Relies on lopdf::Document::get_dictionary_mut and Dictionary::set:
/// sets the Count key on an existing object; an id that does not name a
/// dictionary is left alone.
#[verifier::external_body]
fn set_entry_count(doc: &mut lopdf::Document, id: (u32, u16), count: i64) {
    if let Ok(d) = doc.get_dictionary_mut(id) {
        d.set("Count", lopdf::Object::Integer(count));
    }
}

/// Relies on lopdf::Document::catalog_mut and Dictionary::set: points the
/// document root's Outlines reference at the given object; fails when the
/// document has no reachable root catalog.
#[verifier::external_body]
fn set_catalog_outlines(doc: &mut lopdf::Document, root: (u32, u16)) -> (r: Result<
    (),
    lopdf::Error,
>) {
    let catalog = match doc.catalog_mut() {
        Ok(c) => c,
        Err(e) => {
            return Err(e);
        },
    };
    catalog.set("Outlines", lopdf::Object::Reference(root));
    Ok(())
}

/// Writes the outline into the host document: a synthetic root object of
/// type "Outlines"; one object per entry, laid out and linked exactly as
/// `build_outline_nodes` records them; the root's First/Last over the
/// top-level entries when the outline is not empty; and the catalog's
/// Outlines reference pointed at the root. Fails exactly when the
/// document's root catalog cannot be reached; objects already allocated
/// are not rolled back.
pub fn insert_outline(doc: &mut lopdf::Document, outline: &PdfOutline) -> (r: Result<
    (),
    PdfError,
>)
    requires
        group_size(entries_view(outline@)) <= usize::MAX,
        group_size(entries_view(outline@)) <= i64::MAX,
        pages_positive(entries_view(outline@)),
    ensures
        r is Ok || r == Err::<(), PdfError>(PdfError::ResourceNotFound),
{
    let root_id = add_outlines_root(doc);
    if outline.len() > 0 {
        proof {
            lemma_entries_view_len(outline@);
        }
        let (nodes, links) = build_outline_nodes(outline);
        let ghost nv = nodes_view(nodes@);
        proof {
            lemma_group_recorded_fields(nv, 0, None, entries_view(outline@), None);
            lemma_group_size_nonneg(entries_view(outline@));
        }
        // allocate every record in order: parents always come first
        let mut real_ids: Vec<(u32, u16)> = Vec::new();
        let mut q: usize = 0;
        while q < nodes.len()
            invariant
                q <= nodes@.len(),
                real_ids@.len() == q,
                nv == nodes_view(nodes@),
                forall|w: int|
                    0 <= w < nv.len() ==> {
                        let n = #[trigger] nv[w];
                        n.page_number >= 1 && match n.parent {
                            None => true,
                            Some(p) => 0 <= p < w,
                        }
                    },
            decreases nodes@.len() - q,
        {
            let n = &nodes[q];
            assert(n@ == nv[q as int]);
            let parent_real = match n.parent {
                Some(p) => real_ids[p],
                None => root_id,
            };
            let id = add_entry_object(doc, &n.title, parent_real, n.page_number);
            real_ids.push(id);
            q = q + 1;
        }
        // wire the links and counts
        let mut q: usize = 0;
        while q < nodes.len()
            invariant
                q <= nodes@.len(),
                real_ids@.len() == nodes@.len(),
                nv == nodes_view(nodes@),
                forall|w: int|
                    0 <= w < nv.len() ==> {
                        let n = #[trigger] nv[w];
                        &&& match n.first {
                            None => true,
                            Some(p) => 0 <= p < nv.len(),
                        }
                        &&& match n.last {
                            None => true,
                            Some(p) => 0 <= p < nv.len(),
                        }
                        &&& match n.prev {
                            None => true,
                            Some(p) => 0 <= p < nv.len(),
                        }
                        &&& match n.next {
                            None => true,
                            Some(p) => 0 <= p < nv.len(),
                        }
                    },
            decreases nodes@.len() - q,
        {
            let n = &nodes[q];
            assert(n@ == nv[q as int]);
            match n.first {
                Some(p) => set_entry_ref(doc, real_ids[q], "First", real_ids[p]),
                None => {},
            }
            match n.last {
                Some(p) => set_entry_ref(doc, real_ids[q], "Last", real_ids[p]),
                None => {},
            }
            match n.prev {
                Some(p) => set_entry_ref(doc, real_ids[q], "Prev", real_ids[p]),
                None => {},
            }
            match n.next {
                Some(p) => set_entry_ref(doc, real_ids[q], "Next", real_ids[p]),
                None => {},
            }
            match n.count {
                Some(c) => set_entry_count(doc, real_ids[q], c),
                None => {},
            }
            q = q + 1;
        }
        // the synthetic root's First/Last over the top-level group
        match links {
            Some(fl) => {
                proof {
                    let tv = entries_view(outline@);
                    assert(tv.drop_last().push(tv.last()) =~= tv);
                    lemma_group_size_snoc(tv.drop_last(), tv.last());
                    lemma_subtree_size_pos(tv.last());
                    lemma_group_size_nonneg(tv.drop_last());
                }
                set_entry_ref(doc, root_id, "First", real_ids[fl.0]);
                set_entry_ref(doc, root_id, "Last", real_ids[fl.1]);
            },
            None => {},
        }
    }
    match set_catalog_outlines(doc, root_id) {
        Ok(()) => Ok(()),
        Err(_) => Err(PdfError::ResourceNotFound),
    }
}

} // verus!
