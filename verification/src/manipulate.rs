//! Page operations on existing documents: merging, rotating, reordering and
//! extracting pages, and the arithmetic and bookkeeping behind them.

use std::ops::Range;
use vstd::prelude::*;
use crate::enums::Rotation;
use crate::error::{PdfError, Result};
use crate::pdf_objects::{
    catalog_reference, copy_object, dictionary_ids, dictionary_owner,
    document_object_ids, document_pages, get_object, held_object, id_lt, insert_object, integer_entry,
    integer_list_entry, name_entry, string_entry, add_dictionary, reference_entry, set_name_entry,
    set_reference_entry, set_trailer_root, has_catalog, changes_only_owner,
    keeps_other_entries, new_document, object_ids, page_dictionary_ids, page_ids,
    read_catalog_reference, read_integer_entry, reference_list_entry, set_integer_entry,
    set_reference_list, with_integer_entry, ObjectId,
};
use crate::reader::{load_outcome, load_pdf, FileContents};
use crate::text::push_str;

verus! {

// ---------------------------------------------------------------------
// Rotation arithmetic
// ---------------------------------------------------------------------

/// The clockwise angle, in degrees, of a rotation.
pub open spec fn rotation_degrees(r: Rotation) -> int {
    match r {
        Rotation::NoRotation => 0,
        Rotation::Clockwise90 => 90,
        Rotation::Clockwise180 => 180,
        Rotation::Clockwise270 => 270,
    }
}

/// The remainder of `a` by `m` as Rust's `%` computes it: it takes the sign
/// of `a`.
pub open spec fn truncated_rem(a: int, m: int) -> int {
    if a >= 0 {
        a % m
    } else {
        -((-a) % m)
    }
}

/// The `/Rotate` value that applying `r` to a page whose value is `current`
/// gives: the current value plus the rotation's angle, modulo 360.
pub open spec fn rotated_angle(current: int, r: Rotation) -> int {
    truncated_rem(current + rotation_degrees(r), 360)
}

/// Apply `r` to the rotation value `current`.
pub fn rotate_angle(current: i64, r: Rotation) -> (a: i64)
    ensures
        a == rotated_angle(current as int, r),
{
    let turn: i128 = match r {
        Rotation::NoRotation => 0,
        Rotation::Clockwise90 => 90,
        Rotation::Clockwise180 => 180,
        Rotation::Clockwise270 => 270,
    };
    let sum: i128 = current as i128 + turn;
    let rem: i128 = if sum >= 0 {
        sum % 360
    } else {
        -((-sum) % 360)
    };
    rem as i64
}

/// Rotation values stay within a full turn, and are never negative when the
/// value they start from is not.
pub proof fn law_rotation_within_full_turn(current: int, r: Rotation)
    ensures
        -360 < rotated_angle(current, r) < 360,
        current >= 0 ==> 0 <= rotated_angle(current, r) < 360,
{
}

/// From a value that is not negative, two rotations in turn give what one
/// rotation by the sum of their angles gives.
pub proof fn law_rotations_compose(current: int, first: Rotation, second: Rotation)
    requires
        current >= 0,
    ensures
        rotated_angle(rotated_angle(current, first), second) == (current + rotation_degrees(first)
            + rotation_degrees(second)) % 360,
{
    let a = current + rotation_degrees(first);
    let b = rotation_degrees(second);
    assert((a % 360 + b) % 360 == (a + b) % 360) by {
        vstd::arithmetic::div_mod::lemma_add_mod_noop(a, b, 360);
        vstd::arithmetic::div_mod::lemma_mod_twice(b, 360);
    }
}

/// A full turn, in quarter turns, in half turns, or as a quarter turn one
/// way and three the other, gives back a value within `0..360`.
pub proof fn law_full_turn_restores(current: int)
    requires
        0 <= current < 360,
    ensures
        rotated_angle(
            rotated_angle(
                rotated_angle(rotated_angle(current, Rotation::Clockwise90), Rotation::Clockwise90),
                Rotation::Clockwise90,
            ),
            Rotation::Clockwise90,
        ) == current,
        rotated_angle(rotated_angle(current, Rotation::Clockwise180), Rotation::Clockwise180)
            == current,
        rotated_angle(rotated_angle(current, Rotation::Clockwise90), Rotation::Clockwise270)
            == current,
{
}

/// Applying `NoRotation` brings the value within a full turn and leaves a
/// value already within `0..360` as it is.
pub proof fn law_no_rotation_keeps(current: int)
    ensures
        rotated_angle(current, Rotation::NoRotation) == truncated_rem(current, 360),
        0 <= current < 360 ==> rotated_angle(current, Rotation::NoRotation) == current,
{
}

/// Whether setting `/Rotate` twice in the dictionary object `o` gives what
/// setting it once to the second value gives.
pub open spec fn rotate_resets(o: lopdf::Object) -> bool {
    forall|a: i64, v: i64|
        #[trigger] with_integer_entry(with_integer_entry(o, "Rotate"@, a), "Rotate"@, v) == with_integer_entry(
            o,
            "Rotate"@,
            v,
        )
}

// ---------------------------------------------------------------------
// Page lookup and reordering
// ---------------------------------------------------------------------

/// The id of page `page_number` (1-based) among `pages`; `InvalidPage` when
/// there is no such page.
pub fn page_for_number(pages: &Vec<ObjectId>, page_number: usize) -> (r: Result<ObjectId>)
    ensures
        (page_number == 0 || page_number > pages@.len()) ==> r == Err::<ObjectId, PdfError>(
            PdfError::InvalidPage(page_number),
        ),
        (1 <= page_number <= pages@.len()) ==> r == Ok::<ObjectId, PdfError>(
            pages@[page_number - 1],
        ),
{
    if page_number == 0 || page_number > pages.len() {
        Err(PdfError::InvalidPage(page_number))
    } else {
        Ok(pages[page_number - 1])
    }
}

/// `old` rearranged by `order`: entry `i` is `old[order[i]]`.
pub open spec fn reordered<T>(old: Seq<T>, order: Seq<usize>) -> Seq<T> {
    Seq::new(order.len(), |i: int| old[order[i] as int])
}

/// Whether every index of `order` is below `len`.
pub open spec fn indices_below(order: Seq<usize>, len: nat) -> bool {
    forall|i: int| 0 <= i < order.len() ==> #[trigger] order[i] < len
}

/// Whether `order[i]` is the first index of `order` that is not below `len`.
pub open spec fn first_index_out_of_range(order: Seq<usize>, len: nat, i: int) -> bool {
    &&& 0 <= i < order.len()
    &&& order[i] >= len
    &&& forall|j: int| 0 <= j < i ==> #[trigger] order[j] < len
}

/// Rearrange `old` by `order`, or report the first index of `order` that is
/// out of range as `InvalidPage`.
pub fn reorder_ids(old: &Vec<ObjectId>, order: &[usize]) -> (r: Result<Vec<ObjectId>>)
    ensures
        indices_below(order@, old@.len()) ==> r is Ok && r->Ok_0@ == reordered(old@, order@),
        !indices_below(order@, old@.len()) ==> exists|i: int|
            first_index_out_of_range(order@, old@.len(), i) && r == Err::<Vec<ObjectId>, PdfError>(
                PdfError::InvalidPage(#[trigger] order@[i]),
            ),
{
    let mut v: Vec<ObjectId> = Vec::new();
    let mut i: usize = 0;
    while i < order.len()
        invariant
            i <= order@.len(),
            forall|j: int| 0 <= j < i ==> #[trigger] order@[j] < old@.len(),
            v@ == reordered(old@, order@.take(i as int)),
        decreases order@.len() - i,
    {
        let idx = order[i];
        if idx >= old.len() {
            assert(first_index_out_of_range(order@, old@.len(), i as int));
            return Err(PdfError::InvalidPage(idx));
        }
        v.push(old[idx]);
        assert(v@ =~= reordered(old@, order@.take(i + 1)));
        i = i + 1;
    }
    assert(order@.take(order@.len() as int) =~= order@);
    Ok(v)
}

/// Reordering by the identity order leaves the pages as they were.
pub proof fn law_identity_order_keeps_pages<T>(pages: Seq<T>, order: Seq<usize>)
    requires
        order.len() == pages.len(),
        forall|i: int| 0 <= i < order.len() ==> #[trigger] order[i] == i,
    ensures
        reordered(pages, order) == pages,
{
    assert(reordered(pages, order) =~= pages);
}

/// Reordering by `first` and then by `second` is reordering once, by the
/// order whose entry `i` is `first[second[i]]`; so reordering by a
/// permutation and then by its inverse restores the pages.
pub proof fn law_reorders_compose<T>(pages: Seq<T>, first: Seq<usize>, second: Seq<usize>)
    requires
        indices_below(second, first.len()),
    ensures
        reordered(reordered(pages, first), second) == reordered(
            pages,
            Seq::new(second.len(), |i: int| first[second[i] as int]),
        ),
{
    assert(reordered(reordered(pages, first), second) =~= reordered(
        pages,
        Seq::new(second.len(), |i: int| first[second[i] as int]),
    ));
}

/// Reordering by `order` and then by an inverse of it (an `inverse` with
/// `order[inverse[i]] == i` for every page `i`) restores the pages.
pub proof fn law_inverse_order_restores<T>(pages: Seq<T>, order: Seq<usize>, inverse: Seq<usize>)
    requires
        inverse.len() == pages.len(),
        indices_below(inverse, order.len()),
        forall|i: int| 0 <= i < inverse.len() ==> order[#[trigger] inverse[i] as int] == i,
    ensures
        reordered(reordered(pages, order), inverse) == pages,
{
    law_reorders_compose(pages, order, inverse);
    assert(reordered(pages, Seq::new(inverse.len(), |i: int| order[inverse[i] as int])) =~= pages);
}

// ---------------------------------------------------------------------
// Object ids for copied objects
// ---------------------------------------------------------------------

/// Whether `m` is the greatest id of `ids`.
pub open spec fn is_greatest(ids: Set<ObjectId>, m: ObjectId) -> bool {
    &&& ids.contains(m)
    &&& forall|x: ObjectId| #[trigger] ids.contains(x) ==> x == m || id_lt(x, m)
}

/// The id given to the next copied object, after the greatest id `m` of a
/// document: the next number with the same generation, or number 0 of the
/// next generation when the numbers are used up.
pub open spec fn id_after(m: ObjectId) -> ObjectId {
    if m.0 == u32::MAX {
        (0, ((m.1 + 1) % 65536) as u16)
    } else {
        ((m.0 + 1) as u32, m.1)
    }
}

/// Whether `id` is the id that a copy is given in a document whose ids are
/// `ids`: `(1, 0)` in an empty document, otherwise the id after the
/// greatest.
pub open spec fn is_next_id(ids: Set<ObjectId>, id: ObjectId) -> bool {
    &&& ids.is_empty() ==> id == (1u32, 0u16)
    &&& forall|m: ObjectId| #[trigger] is_greatest(ids, m) ==> id == id_after(m)
}

/// The id after the greatest of `ids`, which lists a document's ids in
/// increasing order.
fn next_object_id(ids: &Vec<ObjectId>) -> (id: ObjectId)
    requires
        forall|i: int, j: int| 0 <= i < j < ids@.len() ==> id_lt(ids@[i], ids@[j]),
    ensures
        is_next_id(ids@.to_set(), id),
        ids@.len() > 0 ==> is_greatest(ids@.to_set(), ids@[ids@.len() - 1]),
{
    let n = ids.len();
    if n == 0 {
        assert(ids@.to_set() =~= Set::<ObjectId>::empty());
        return (1, 0);
    }
    let (number, generation) = ids[n - 1];
    let ghost last = ids@[n - 1];
    proof {
        assert(is_greatest(ids@.to_set(), last)) by {
            assert(ids@.to_set().contains(last));
            assert forall|x: ObjectId| #[trigger] ids@.to_set().contains(x) implies x == last
                || id_lt(x, last) by {
                let i = choose|i: int| 0 <= i < ids@.len() && ids@[i] == x;
                if i < n - 1 {
                    assert(id_lt(ids@[i], ids@[n - 1]));
                }
            }
        }
        assert forall|m: ObjectId| #[trigger] is_greatest(ids@.to_set(), m) implies m == last by {
            assert(m == last || id_lt(m, last));
            assert(last == m || id_lt(last, m));
        }
    }
    if number == u32::MAX {
        let next_generation: u16 = if generation == u16::MAX {
            0
        } else {
            generation + 1
        };
        (0, next_generation)
    } else {
        (number + 1, generation)
    }
}

/// A new id is not taken yet while the greatest id's number is below
/// `u32::MAX`.
pub proof fn law_next_id_is_fresh(ids: Set<ObjectId>, id: ObjectId, m: ObjectId)
    requires
        is_next_id(ids, id),
        is_greatest(ids, m),
        m.0 < u32::MAX,
    ensures
        !ids.contains(id),
        id_lt(m, id),
{
    if ids.contains(id) {
        assert(id == m || id_lt(id, m));
    }
}

/// Whether `extra` more ids can follow those of `ids`, one number apart,
/// before the numbers run out.
pub open spec fn room_for(ids: Set<ObjectId>, extra: nat) -> bool {
    &&& extra < u32::MAX
    &&& forall|x: ObjectId| #[trigger] ids.contains(x) ==> x.0 + extra < u32::MAX
}

/// With room left, the next id is new, and one less room is left after it.
proof fn lemma_next_id_fits(ids: Set<ObjectId>, id: ObjectId, room: nat)
    requires
        ids.finite(),
        is_next_id(ids, id),
        !ids.is_empty() ==> exists|m: ObjectId| is_greatest(ids, m),
        room >= 1,
        room_for(ids, room),
    ensures
        !ids.contains(id),
        ids.insert(id).len() == ids.len() + 1,
        room_for(ids.insert(id), (room - 1) as nat),
{
    if ids.is_empty() {
        assert(id == (1u32, 0u16));
    } else {
        let m = choose|m: ObjectId| is_greatest(ids, m);
        assert(ids.contains(m));
        law_next_id_is_fresh(ids, id, m);
        assert(id == id_after(m));
    }
}

/// Store a copy of `obj` in `dest` under the id after `dest`'s greatest id.
fn clone_object_into(dest: &mut lopdf::Document, obj: &lopdf::Object) -> (id: ObjectId)
    ensures
        is_next_id(document_object_ids(*old(dest)), id),
        document_object_ids(*final(dest)) == document_object_ids(*old(dest)).insert(id),
        held_object(*final(dest), id) == Some(*obj),
        forall|x: ObjectId| x != id ==> #[trigger] held_object(*final(dest), x) == held_object(*old(dest), x),
        !document_object_ids(*old(dest)).contains(id) ==> {
            &&& dictionary_ids(*old(dest)).subset_of(dictionary_ids(*final(dest)))
            &&& page_dictionary_ids(*old(dest)).subset_of(page_dictionary_ids(*final(dest)))
            &&& forall|x: ObjectId, k: Seq<char>|
                dictionary_ids(*old(dest)).contains(x) ==> #[trigger] reference_entry(*final(dest), x, k)
                    == reference_entry(*old(dest), x, k)
            &&& forall|x: ObjectId|
                dictionary_ids(*old(dest)).contains(x) ==> #[trigger] dictionary_owner(*final(dest), x)
                    == dictionary_owner(*old(dest), x)
            &&& has_catalog(*old(dest)) ==> has_catalog(*final(dest)) && forall|k: Seq<char>|
                #[trigger] catalog_reference(*final(dest), k) == catalog_reference(*old(dest), k)
        },
        forall|src: lopdf::Document, y: ObjectId|
            #[trigger] held_object(src, dictionary_owner(src, y)) == Some(*obj) && page_dictionary_ids(
                src,
            ).contains(y) ==> page_dictionary_ids(*final(dest)).contains(id) && dictionary_ids(
                *final(dest),
            ).contains(id),
        document_object_ids(*old(dest)).finite(),
        !document_object_ids(*old(dest)).is_empty() ==> exists|m: ObjectId|
            is_greatest(document_object_ids(*old(dest)), m),
{
    let ids = object_ids(dest);
    let id = next_object_id(&ids);
    proof {
        vstd::seq_lib::seq_to_set_is_finite(ids@);
        if ids@.len() == 0 {
            assert(ids@.to_set() =~= Set::<ObjectId>::empty());
        } else {
            assert(is_greatest(ids@.to_set(), ids@[ids@.len() - 1]));
        }
    }
    let copy = copy_object(obj);
    insert_object(dest, id, copy);
    id
}

// ---------------------------------------------------------------------
// The manipulator
// ---------------------------------------------------------------------

/// The id of the `k`-th page copy (0-based) of an extracted document: after
/// the page tree's root `(1, 0)` and the catalog `(2, 0)`.
pub open spec fn copy_id(k: int) -> ObjectId {
    ((k + 3) as u32, 0u16)
}

/// Whether `out` holds under [`copy_id`]`(k)`, for each `k < n`, the object
/// that page `start + k` of `doc` resolves to.
pub open spec fn copies_pages(out: lopdf::Document, doc: lopdf::Document, start: int, n: int) -> bool {
    forall|k: int|
        0 <= k < n ==> #[trigger] held_object(out, copy_id(k)) == held_object(
            doc,
            dictionary_owner(doc, document_pages(doc)[start + k]),
        )
}

/// Whether `out` is a document of `n` pages that copy pages `start` to
/// `start + n - 1` of `doc`, in order: its objects are the page tree's root
/// `(1, 0)`, the catalog `(2, 0)` and the copies, and its pages are the
/// copies.
pub open spec fn extracted_from(out: lopdf::Document, doc: lopdf::Document, start: int, n: int) -> bool {
    &&& document_object_ids(out) == first_ids((n + 2) as nat)
    &&& document_pages(out) == Seq::new(n as nat, |k: int| copy_id(k))
    &&& copies_pages(out, doc, start, n)
}

/// The ids `(1, 0)` to `(n, 0)` are `n` ids.
proof fn lemma_first_ids_len(n: nat)
    requires
        n < u32::MAX,
    ensures
        first_ids(n).finite(),
        first_ids(n).len() == n,
    decreases n,
{
    if n == 0 {
        assert(first_ids(0) =~= Set::<ObjectId>::empty());
    } else {
        lemma_first_ids_len((n - 1) as nat);
        assert(first_ids(n) =~= first_ids((n - 1) as nat).insert((n as u32, 0u16)));
    }
}

/// The ids `(1, 0)` to `(n, 0)`.
pub open spec fn first_ids(n: nat) -> Set<ObjectId> {
    Set::new(|id: ObjectId| 1 <= id.0 <= n && id.1 == 0)
}

/// What a merge of `sources` gives when every source loads.
pub open spec fn all_sources_load(sources: Seq<(String, FileContents)>) -> bool {
    forall|k: int| 0 <= k < sources.len() ==> #[trigger] load_outcome(sources[k].1) is Ok
}

/// The number of pages of the sources before `k`, leaving out the first:
/// the pages that a merge copies from them.
pub open spec fn later_page_count(sources: Seq<(String, FileContents)>, k: int) -> nat
    decreases k,
{
    if k <= 1 {
        0
    } else {
        later_page_count(sources, k - 1) + document_pages(load_outcome(sources[k - 1].1)->Ok_0).len()
    }
}

/// Counting the pages of more sources gives no fewer.
proof fn lemma_later_page_count_grows(sources: Seq<(String, FileContents)>, j: int, k: int)
    requires
        j <= k,
    ensures
        later_page_count(sources, j) <= later_page_count(sources, k),
    decreases k - j,
{
    if j < k {
        lemma_later_page_count_grows(sources, j, k - 1);
    }
}

/// Whether source `k` is the first of `sources` that does not load, and
/// `m` is the message that a merge reports for it.
pub open spec fn merge_failure(sources: Seq<(String, FileContents)>, k: int, m: Seq<char>) -> bool {
    &&& 0 <= k < sources.len()
    &&& forall|j: int| 0 <= j < k ==> #[trigger] load_outcome(sources[j].1) is Ok
    &&& load_outcome(sources[k].1) matches Err(e) && m == "Failed to load "@ + sources[k].0@
        + ": "@ + e
}

/// The document that source `j` of a merge loads to.
pub open spec fn source_document(sources: Seq<(String, FileContents)>, j: int) -> lopdf::Document {
    load_outcome(sources[j].1)->Ok_0
}

/// Whether `doc` holds, under one of its ids, the object that `page`
/// resolves to in `src`.
pub open spec fn holds_copy(doc: lopdf::Document, src: lopdf::Document, page: ObjectId) -> bool {
    exists|x: ObjectId|
        document_object_ids(doc).contains(x) && #[trigger] held_object(doc, x) == held_object(
            src,
            dictionary_owner(src, page),
        )
}

/// Whether `doc` holds a copy of the object of every page of sources `1`
/// to `k - 1`.
pub open spec fn copies_later_pages(doc: lopdf::Document, sources: Seq<(String, FileContents)>, k: int) -> bool {
    forall|j: int, q: int|
        1 <= j < k && 0 <= q < document_pages(source_document(sources, j)).len() ==> #[trigger] holds_copy(
            doc,
            source_document(sources, j),
            document_pages(source_document(sources, j))[q],
        )
}

/// Whether `x` is the id under which `base` stores its page tree's root.
pub open spec fn is_page_tree_root(base: lopdf::Document, x: ObjectId) -> bool {
    catalog_reference(base, "Pages"@) matches Some(root) && x == dictionary_owner(base, root)
}

/// Whether `doc` holds every object of `base` under the same id, except
/// for the root of `base`'s page tree.
pub open spec fn keeps_objects(doc: lopdf::Document, base: lopdf::Document) -> bool {
    forall|x: ObjectId|
        document_object_ids(base).contains(x) && !is_page_tree_root(base, x) ==> #[trigger] held_object(
            doc,
            x,
        ) == held_object(base, x)
}

/// Whether `copies` lists, in order, ids under which `doc` holds the
/// objects of the pages of sources `1` to `k - 1`: page `q` of source `j`
/// at index `later_page_count(sources, j) + q`.
spec fn copies_in_order(
    doc: lopdf::Document,
    copies: Seq<ObjectId>,
    sources: Seq<(String, FileContents)>,
    k: int,
) -> bool {
    forall|j: int, q: int|
        1 <= j < k && 0 <= q < document_pages(source_document(sources, j)).len() ==> #[trigger] held_object(
            doc,
            copies[later_page_count(sources, j) + q],
        ) == held_object(
            source_document(sources, j),
            dictionary_owner(source_document(sources, j), document_pages(source_document(sources, j))[q]),
        )
}

/// Whether every id of `copies` is a page of `doc` that `base` did not have.
spec fn fresh_page_copies(doc: lopdf::Document, base: lopdf::Document, copies: Seq<ObjectId>) -> bool {
    forall|t: int|
        0 <= t < copies.len() ==> page_dictionary_ids(doc).contains(#[trigger] copies[t])
            && document_object_ids(doc).contains(copies[t]) && !document_object_ids(base).contains(
            copies[t],
        )
}

/// Whether what `base` resolves, `doc` resolves the same way.
spec fn base_structure_kept(doc: lopdf::Document, base: lopdf::Document) -> bool {
    &&& page_dictionary_ids(base).subset_of(page_dictionary_ids(doc))
    &&& dictionary_ids(base).subset_of(dictionary_ids(doc))
    &&& forall|x: ObjectId|
        dictionary_ids(base).contains(x) ==> #[trigger] dictionary_owner(doc, x) == dictionary_owner(base, x)
    &&& has_catalog(base) ==> has_catalog(doc) && forall|key: Seq<char>|
        #[trigger] catalog_reference(doc, key) == catalog_reference(base, key)
}

/// Whether `doc` has a catalog whose `/Pages` refers to a dictionary: the
/// root of its page tree.
pub open spec fn well_rooted(doc: lopdf::Document) -> bool {
    &&& has_catalog(doc)
    &&& catalog_reference(doc, "Pages"@) matches Some(root) && dictionary_ids(doc).contains(root)
}

/// Whether the pages of `r` are those of `base` followed by copies of the
/// pages of sources `1`, `2`, … in order.
pub open spec fn merged_pages(r: lopdf::Document, base: lopdf::Document, sources: Seq<(String, FileContents)>) -> bool {
    let pages = document_pages(r);
    let b = document_pages(base);
    &&& pages.len() == b.len() + later_page_count(sources, sources.len() as int)
    &&& pages.take(b.len() as int) == b
    &&& forall|j: int, q: int|
        1 <= j < sources.len() && 0 <= q < document_pages(source_document(sources, j)).len() ==> #[trigger] held_object(
            r,
            pages[b.len() + later_page_count(sources, j) + q],
        ) == held_object(
            source_document(sources, j),
            dictionary_owner(source_document(sources, j), document_pages(source_document(sources, j))[q]),
        )
}

/// A manipulator for merging, rotating, reordering and extracting pages.
pub struct PdfManipulator {
    doc: lopdf::Document,
}

impl PdfManipulator {
    /// The document being manipulated.
    pub closed spec fn document(&self) -> lopdf::Document {
        self.doc
    }

    /// Open a PDF for manipulation from the contents of its file.
    pub fn open(file: FileContents) -> (r: Result<Self>)
        ensures
            match load_outcome(file) {
                Ok(d) => r is Ok && r->Ok_0.document() == d,
                Err(m) => r matches Err(PdfError::Parse(s)) && s@ == m,
            },
    {
        let doc = load_pdf(&file)?;
        Ok(PdfManipulator { doc })
    }

    /// Merge documents, each given by a name (its path) and the contents of
    /// its file: the first is the base, and a copy of each page object of
    /// every other document is added to it under a new id. The copies are
    /// appended, in order, to the `/Kids` of the base's page tree root, whose
    /// `/Count` becomes the number of kids. Fails with `Other` when there is
    /// no source, and with `Parse` naming the first source that cannot be
    /// loaded.
    pub fn merge_files(sources: &Vec<(String, FileContents)>) -> (r: Result<lopdf::Document>)
        ensures
            sources@.len() == 0 ==> (r matches Err(PdfError::Other(m)) && m@
                == "No input files specified"@),
            sources@.len() > 0 && all_sources_load(sources@) ==> ({
                let base_doc = load_outcome(sources@[0].1)->Ok_0;
                let base = document_object_ids(base_doc);
                let copies = later_page_count(sources@, sources@.len() as int);
                &&& r is Ok
                &&& base.subset_of(document_object_ids(r->Ok_0))
                &&& copies == 0 ==> r->Ok_0 == base_doc
                &&& copies > 0 && room_for(base, copies) ==> {
                    &&& document_object_ids(r->Ok_0).len() == base.len() + copies
                    &&& well_rooted(base_doc) || catalog_reference(base_doc, "Pages"@) is None
                        ==> keeps_objects(r->Ok_0, base_doc) && copies_later_pages(
                        r->Ok_0,
                        sources@,
                        sources@.len() as int,
                    )
                    &&& well_rooted(base_doc) ==> merged_pages(r->Ok_0, base_doc, sources@)
                }
            }),
            sources@.len() > 0 && !all_sources_load(sources@) ==> exists|k: int, m: Seq<char>|
                #[trigger] merge_failure(sources@, k, m) && (r matches Err(PdfError::Parse(s))
                    && s@ == m),
    {
        if sources.len() == 0 {
            let mut m = String::new();
            push_str(&mut m, "No input files specified");
            return Err(PdfError::Other(m));
        }
        let mut base = match Self::load_source(sources, 0) {
            Ok(d) => d,
            Err(e) => {
                assert(merge_failure(sources@, 0, e->Parse_0@));
                return Err(e);
            },
        };
        let ghost base_ids = document_object_ids(base);
        let ghost base0 = base;
        let ghost total = later_page_count(sources@, sources@.len() as int);
        let ghost mut copied: nat = 0;
        let base_pages = page_ids(&base);
        let tree_root = read_catalog_reference(&base, "Pages");
        // Where the page tree's root is stored: an object of the base, which
        // the copies added below cannot be.
        if let Some(root) = tree_root {
            get_object(&base, root);
        }
        let mut copies: Vec<ObjectId> = Vec::new();
        let mut k: usize = 1;
        while k < sources.len()
            invariant
                1 <= k <= sources@.len(),
                forall|j: int| 0 <= j < k ==> #[trigger] load_outcome(sources@[j].1) is Ok,
                load_outcome(sources@[0].1) is Ok,
                base_ids == document_object_ids(load_outcome(sources@[0].1)->Ok_0),
                base_ids.subset_of(document_object_ids(base)),
                total == later_page_count(sources@, sources@.len() as int),
                copied == later_page_count(sources@, k as int),
                copied <= total,
                copied == 0 ==> document_object_ids(base) == base_ids,
                copied > 0 && total > 0 && room_for(base_ids, total) ==> document_object_ids(
                    base,
                ).len() == base_ids.len() + copied,
                total > 0 && room_for(base_ids, total) ==> room_for(
                    document_object_ids(base),
                    (total - copied) as nat,
                ),
                base0 == load_outcome(sources@[0].1)->Ok_0,
                copied == 0 ==> base == base0,
                copies@.len() == copied,
                total > 0 && room_for(base_ids, total) ==> {
                    &&& forall|x: ObjectId|
                        base_ids.contains(x) ==> #[trigger] held_object(base, x) == held_object(base0, x)
                    &&& copies_later_pages(base, sources@, k as int)
                    &&& copies_in_order(base, copies@, sources@, k as int)
                    &&& fresh_page_copies(base, base0, copies@)
                    &&& base_structure_kept(base, base0)
                },
            decreases sources@.len() - k,
        {
            let other = match Self::load_source(sources, k) {
                Ok(d) => d,
                Err(e) => {
                    assert(merge_failure(sources@, k as int, e->Parse_0@));
                    return Err(e);
                },
            };
            let pages = page_ids(&other);
            proof {
                lemma_later_page_count_grows(sources@, k as int + 1, sources@.len() as int);
            }
            let mut p: usize = 0;
            while p < pages.len()
                invariant
                    p <= pages@.len(),
                    1 <= k < sources@.len(),
                    forall|j: int| 0 <= j <= k ==> #[trigger] load_outcome(sources@[j].1) is Ok,
                    load_outcome(sources@[0].1) is Ok,
                    base_ids == document_object_ids(load_outcome(sources@[0].1)->Ok_0),
                    base_ids.subset_of(document_object_ids(base)),
                    pages@ == document_pages(other),
                    other == load_outcome(sources@[k as int].1)->Ok_0,
                    forall|i: int|
                        0 <= i < pages@.len() ==> dictionary_ids(other).contains(#[trigger] pages@[i]),
                    forall|i: int|
                        0 <= i < pages@.len() ==> page_dictionary_ids(other).contains(#[trigger] pages@[i]),
                    total == later_page_count(sources@, sources@.len() as int),
                    later_page_count(sources@, k + 1) <= total,
                    copied == later_page_count(sources@, k as int) + p,
                    copied == 0 ==> document_object_ids(base) == base_ids,
                    copied > 0 && total > 0 && room_for(base_ids, total) ==> document_object_ids(
                    base,
                ).len() == base_ids.len() + copied,
                    total > 0 && room_for(base_ids, total) ==> room_for(
                        document_object_ids(base),
                        (total - copied) as nat,
                    ),
                    base0 == load_outcome(sources@[0].1)->Ok_0,
                    copied == 0 ==> base == base0,
                    copies@.len() == copied,
                    total > 0 && room_for(base_ids, total) ==> {
                        &&& forall|x: ObjectId|
                            base_ids.contains(x) ==> #[trigger] held_object(base, x) == held_object(base0, x)
                        &&& copies_later_pages(base, sources@, k as int)
                        &&& forall|q: int| 0 <= q < p ==> #[trigger] holds_copy(base, other, pages@[q])
                        &&& copies_in_order(base, copies@, sources@, k as int)
                        &&& forall|q: int|
                            0 <= q < p ==> #[trigger] held_object(
                                base,
                                copies@[later_page_count(sources@, k as int) + q],
                            ) == held_object(other, dictionary_owner(other, pages@[q]))
                        &&& fresh_page_copies(base, base0, copies@)
                        &&& base_structure_kept(base, base0)
                    },
                decreases pages@.len() - p,
            {
                let ghost before = document_object_ids(base);
                let ghost prev = base;
                let ghost prev_copies = copies@;
                match get_object(&other, pages[p]) {
                    Some(obj) => {
                        let id = clone_object_into(&mut base, obj);
                        copies.push(id);
                        proof {
                            if total > 0 && room_for(base_ids, total) {
                                lemma_next_id_fits(before, id, (total - copied) as nat);
                                assert(page_dictionary_ids(other).contains(pages@[p as int]));
                                assert(held_object(other, dictionary_owner(other, pages@[p as int]))
                                    == Some(*obj));
                                assert(page_dictionary_ids(base).contains(id));
                                assert(!base_ids.contains(id));
                                assert forall|t: int| 0 <= t < copies@.len() implies page_dictionary_ids(
                                    base,
                                ).contains(#[trigger] copies@[t]) && document_object_ids(base).contains(
                                    copies@[t],
                                ) && !document_object_ids(base0).contains(copies@[t]) by {
                                    if t < prev_copies.len() {
                                        assert(copies@[t] == prev_copies[t]);
                                        assert(page_dictionary_ids(prev).contains(prev_copies[t]));
                                    }
                                }
                                assert forall|x: ObjectId| dictionary_ids(base0).contains(x) implies #[trigger] dictionary_owner(
                                    base,
                                    x,
                                ) == dictionary_owner(base0, x) by {
                                    assert(dictionary_ids(prev).contains(x));
                                }
                                assert(base_structure_kept(base, base0));
                                assert forall|j: int, q: int|
                                    1 <= j < k && 0 <= q < document_pages(source_document(sources@, j)).len()
                                        implies #[trigger] held_object(
                                    base,
                                    copies@[later_page_count(sources@, j) + q],
                                ) == held_object(
                                    source_document(sources@, j),
                                    dictionary_owner(
                                        source_document(sources@, j),
                                        document_pages(source_document(sources@, j))[q],
                                    ),
                                ) by {
                                    lemma_later_page_count_grows(sources@, j + 1, k as int);
                                    let i = later_page_count(sources@, j) + q;
                                    assert(i < prev_copies.len());
                                    assert(copies@[i] == prev_copies[i]);
                                    assert(document_object_ids(prev).contains(prev_copies[i]));
                                    assert(held_object(prev, prev_copies[i]) == held_object(
                                        source_document(sources@, j),
                                        dictionary_owner(
                                            source_document(sources@, j),
                                            document_pages(source_document(sources@, j))[q],
                                        ),
                                    ));
                                }
                                assert forall|q: int| 0 <= q < p + 1 implies #[trigger] held_object(
                                    base,
                                    copies@[later_page_count(sources@, k as int) + q],
                                ) == held_object(other, dictionary_owner(other, pages@[q])) by {
                                    let i = later_page_count(sources@, k as int) + q;
                                    if q < p {
                                        assert(copies@[i] == prev_copies[i]);
                                        assert(document_object_ids(prev).contains(prev_copies[i]));
                                        assert(held_object(prev, prev_copies[i]) == held_object(
                                            other,
                                            dictionary_owner(other, pages@[q]),
                                        ));
                                    } else {
                                        assert(copies@[i] == id);
                                    }
                                }
                                assert forall|x: ObjectId| base_ids.contains(x) implies #[trigger] held_object(
                                    base,
                                    x,
                                ) == held_object(base0, x) by {
                                    assert(before.contains(x));
                                    assert(held_object(prev, x) == held_object(base0, x));
                                }
                                assert forall|j: int, q: int|
                                    1 <= j < k && 0 <= q < document_pages(
                                        source_document(sources@, j),
                                    ).len() implies #[trigger] holds_copy(
                                    base,
                                    source_document(sources@, j),
                                    document_pages(source_document(sources@, j))[q],
                                ) by {
                                    let src = source_document(sources@, j);
                                    let pg = document_pages(src)[q];
                                    assert(holds_copy(prev, src, pg));
                                    let x = choose|x: ObjectId|
                                        document_object_ids(prev).contains(x) && #[trigger] held_object(
                                            prev,
                                            x,
                                        ) == held_object(src, dictionary_owner(src, pg));
                                    assert(x != id);
                                    assert(held_object(base, x) == held_object(prev, x));
                                }
                                assert forall|q: int| 0 <= q < p + 1 implies #[trigger] holds_copy(
                                    base,
                                    other,
                                    pages@[q],
                                ) by {
                                    if q < p {
                                        assert(holds_copy(prev, other, pages@[q]));
                                        let x = choose|x: ObjectId|
                                            document_object_ids(prev).contains(x) && #[trigger] held_object(
                                                prev,
                                                x,
                                            ) == held_object(other, dictionary_owner(other, pages@[q]));
                                        assert(x != id);
                                        assert(held_object(base, x) == held_object(prev, x));
                                    } else {
                                        assert(document_object_ids(base).contains(id));
                                        assert(held_object(base, id) == held_object(
                                            other,
                                            dictionary_owner(other, pages@[q]),
                                        ));
                                    }
                                }
                            }
                            if copied == 0 {
                                assert(before == base_ids);
                            }
                            copied = copied + 1;
                        }
                    },
                    None => {},
                }
                p = p + 1;
            }
            proof {
                if total > 0 && room_for(base_ids, total) {
                    assert forall|j: int, q: int|
                        1 <= j < k + 1 && 0 <= q < document_pages(source_document(sources@, j)).len()
                            implies #[trigger] held_object(
                        base,
                        copies@[later_page_count(sources@, j) + q],
                    ) == held_object(
                        source_document(sources@, j),
                        dictionary_owner(
                            source_document(sources@, j),
                            document_pages(source_document(sources@, j))[q],
                        ),
                    ) by {
                        if j == k {
                            assert(source_document(sources@, j) == other);
                        }
                    }
                }
            }
            k = k + 1;
        }
        let ghost linked_from = base;
        match tree_root {
            Some(root) if copies.len() > 0 => {
                let mut kids = base_pages;
                let mut t: usize = 0;
                while t < copies.len()
                    invariant
                        t <= copies@.len(),
                        kids@ == document_pages(base0) + copies@.take(t as int),
                    decreases copies@.len() - t,
                {
                    kids.push(copies[t]);
                    t = t + 1;
                    assert(kids@ =~= document_pages(base0) + copies@.take(t as int));
                }
                assert(copies@.take(copies@.len() as int) =~= copies@);
                let count = kids.len() as i64;
                proof {
                    reveal_strlit("Kids");
                    reveal_strlit("Count");
                    reveal_strlit("Type");
                    reveal_strlit("Linearized");
                    reveal_strlit("Pages");
                    reveal_strlit("Root");
                    assert("Count"@.len() == 5);
                    assert("Count"@ != "Pages"@) by {
                        assert("Count"@[0] != "Pages"@[0]);
                    }
                    assert("Type"@.len() == 4);
                    assert("Kids"@.len() == 4);
                    assert("Linearized"@.len() == 10);
                }
                let ghost kids_view = kids@;
                let ghost with_kids = base;
                if set_reference_list(&mut base, root, "Kids", kids) {
                    proof {
                        with_kids = base;
                    }
                    set_integer_entry(&mut base, root, "Count", count);
                }
                proof {
                    if total > 0 && room_for(base_ids, total) && well_rooted(base0) {
                        assert(dictionary_ids(linked_from).contains(root));
                        assert(catalog_reference(linked_from, "Pages"@) == Some(root));
                        assert forall|i: int| 0 <= i < kids_view.len() implies page_dictionary_ids(
                            linked_from,
                        ).contains(#[trigger] kids_view[i]) by {
                            if i < base_pages@.len() {
                                assert(kids_view[i] == base_pages@[i]);
                                assert(page_dictionary_ids(base0).contains(base_pages@[i]));
                            } else {
                                assert(kids_view[i] == copies@[i - base_pages@.len()]);
                            }
                        }
                        assert(document_pages(with_kids) == kids_view);
                        assert(document_pages(base) == kids_view);
                        let owner = dictionary_owner(linked_from, root);
                        assert(owner == dictionary_owner(base0, root));
                        assert(document_object_ids(base0).contains(owner));
                        assert(dictionary_owner(with_kids, root) == owner);
                        assert forall|x: ObjectId| x != owner implies #[trigger] held_object(base, x)
                            == held_object(linked_from, x) by {
                            assert(held_object(with_kids, x) == held_object(linked_from, x));
                        }
                        let b = document_pages(base0);
                        assert(kids_view == b + copies@);
                        assert(kids_view.take(b.len() as int) =~= b);
                        assert forall|j: int, q: int|
                            1 <= j < sources@.len() && 0 <= q < document_pages(
                                source_document(sources@, j),
                            ).len() implies #[trigger] held_object(
                            base,
                            document_pages(base)[b.len() + later_page_count(sources@, j) + q],
                        ) == held_object(
                            source_document(sources@, j),
                            dictionary_owner(
                                source_document(sources@, j),
                                document_pages(source_document(sources@, j))[q],
                            ),
                        ) by {
                            lemma_later_page_count_grows(sources@, j + 1, sources@.len() as int);
                            let i = later_page_count(sources@, j) + q;
                            assert(0 <= i < copies@.len());
                            assert(document_pages(base)[b.len() + i] == copies@[i]);
                            assert(!document_object_ids(base0).contains(copies@[i]));
                            assert(copies@[i] != owner);
                            assert(held_object(linked_from, copies@[i]) == held_object(
                                source_document(sources@, j),
                                dictionary_owner(
                                    source_document(sources@, j),
                                    document_pages(source_document(sources@, j))[q],
                                ),
                            ));
                        }
                        assert forall|x: ObjectId|
                            document_object_ids(base0).contains(x) && !is_page_tree_root(base0, x)
                                implies #[trigger] held_object(base, x) == held_object(base0, x) by {
                            assert(x != owner);
                            assert(held_object(linked_from, x) == held_object(base0, x));
                        }
                        assert forall|j: int, q: int|
                            1 <= j < sources@.len() && 0 <= q < document_pages(
                                source_document(sources@, j),
                            ).len() implies #[trigger] holds_copy(
                            base,
                            source_document(sources@, j),
                            document_pages(source_document(sources@, j))[q],
                        ) by {
                            lemma_later_page_count_grows(sources@, j + 1, sources@.len() as int);
                            let i = later_page_count(sources@, j) + q;
                            assert(copies@[i] != owner);
                            assert(document_object_ids(base).contains(copies@[i]));
                            assert(held_object(base, copies@[i]) == held_object(linked_from, copies@[i]));
                        }
                    }
                }
            },
            _ => {},
        }
        Ok(base)
    }

    /// Load source `k` of a merge, naming it in the error.
    fn load_source(sources: &Vec<(String, FileContents)>, k: usize) -> (r: Result<lopdf::Document>)
        requires
            k < sources@.len(),
        ensures
            match load_outcome(sources@[k as int].1) {
                Ok(d) => r == Ok::<lopdf::Document, PdfError>(d),
                Err(e) => r matches Err(PdfError::Parse(s)) && s@ == "Failed to load "@
                    + sources@[k as int].0@ + ": "@ + e,
            },
    {
        let (name, file) = &sources[k];
        match load_pdf(file) {
            Ok(d) => Ok(d),
            Err(e) => {
                let mut m = String::new();
                push_str(&mut m, "Failed to load ");
                push_str(&mut m, name.as_str());
                push_str(&mut m, ": ");
                match e {
                    PdfError::Parse(detail) => push_str(&mut m, detail.as_str()),
                    _ => {},
                }
                Err(PdfError::Parse(m))
            },
        }
    }

    /// Rotate page `page_number` (1-based): its `/Rotate` value (0 when it
    /// has none) becomes [`rotated_angle`] of it. `InvalidPage` when there is
    /// no such page.
    pub fn rotate_page(&mut self, page_number: usize, rotation: Rotation) -> (r: Result<()>)
        ensures
            (page_number == 0 || page_number > document_pages(old(self).document()).len()) ==> r
                == Err::<(), PdfError>(PdfError::InvalidPage(page_number)) && final(self).document()
                == old(self).document(),
            (1 <= page_number <= document_pages(old(self).document()).len()) ==> {
                let id = document_pages(old(self).document())[page_number - 1];
                let current = match integer_entry(old(self).document(), id, "Rotate"@) {
                    Some(v) => v as int,
                    None => 0,
                };
                &&& r is Ok
                &&& integer_entry(final(self).document(), id, "Rotate"@) == Some(
                    rotated_angle(current, rotation) as i64,
                )
                &&& document_pages(final(self).document()) == document_pages(old(self).document())
                &&& keeps_other_entries(old(self).document(), final(self).document(), "Rotate"@)
                &&& changes_only_owner(old(self).document(), final(self).document(), id)
                &&& (held_object(old(self).document(), dictionary_owner(old(self).document(), id)) matches Some(
                    o,
                ) && held_object(final(self).document(), dictionary_owner(old(self).document(), id))
                    == Some(with_integer_entry(o, "Rotate"@, rotated_angle(current, rotation) as i64))
                    && rotate_resets(o))
                &&& forall|x: ObjectId|
                    dictionary_owner(old(self).document(), x) != dictionary_owner(
                        old(self).document(),
                        id,
                    ) ==> #[trigger] integer_entry(final(self).document(), x, "Rotate"@)
                        == integer_entry(old(self).document(), x, "Rotate"@)
            },
    {
        let pages = page_ids(&self.doc);
        let id = page_for_number(&pages, page_number)?;
        let current: i64 = match read_integer_entry(&self.doc, id, "Rotate") {
            Some(v) => v,
            None => 0,
        };
        let angle = rotate_angle(current, rotation);
        proof {
            reveal_strlit("Rotate");
            reveal_strlit("Type");
            reveal_strlit("Linearized");
            reveal_strlit("Kids");
            reveal_strlit("Pages");
            reveal_strlit("Root");
            assert("Rotate"@.len() == 6);
        }
        set_integer_entry(&mut self.doc, id, "Rotate", angle);
        Ok(())
    }

    /// Reorder the pages by `order` (0-based indices into the current page
    /// list): the page tree's root gets `order.len()` as its `/Count` and the
    /// reordered pages as its `/Kids`. `InvalidPage` names the first index
    /// that is out of range, and leaves the document as it was.
    pub fn reorder_pages(&mut self, order: &[usize]) -> (r: Result<()>)
        ensures
            ({
                let pages = document_pages(old(self).document());
                &&& !indices_below(order@, pages.len()) ==> final(self).document() == old(
                    self,
                ).document() && exists|i: int|
                    first_index_out_of_range(order@, pages.len(), i) && r == Err::<(), PdfError>(
                        PdfError::InvalidPage(#[trigger] order@[i]),
                    )
                &&& indices_below(order@, pages.len()) ==> r is Ok && document_object_ids(
                    final(self).document(),
                ) == document_object_ids(old(self).document())
                &&& forall|x: ObjectId, k: Seq<char>|
                    k != "Count"@ && k != "Kids"@ ==> #[trigger] integer_entry(
                        final(self).document(),
                        x,
                        k,
                    ) == integer_entry(old(self).document(), x, k)
                &&& forall|x: ObjectId, k: Seq<char>|
                    k != "Count"@ && k != "Kids"@ ==> #[trigger] string_entry(
                        final(self).document(),
                        x,
                        k,
                    ) == string_entry(old(self).document(), x, k)
                &&& forall|x: ObjectId, k: Seq<char>|
                    k != "Count"@ && k != "Kids"@ ==> #[trigger] name_entry(
                        final(self).document(),
                        x,
                        k,
                    ) == name_entry(old(self).document(), x, k)
                &&& forall|x: ObjectId, k: Seq<char>|
                    k != "Count"@ && k != "Kids"@ ==> #[trigger] reference_list_entry(
                        final(self).document(),
                        x,
                        k,
                    ) == reference_list_entry(old(self).document(), x, k)
                &&& forall|x: ObjectId, k: Seq<char>|
                    k != "Count"@ && k != "Kids"@ ==> #[trigger] integer_list_entry(
                        final(self).document(),
                        x,
                        k,
                    ) == integer_list_entry(old(self).document(), x, k)
                &&& forall|x: ObjectId| #[trigger] dictionary_owner(final(self).document(), x)
                    == dictionary_owner(old(self).document(), x)
                &&& indices_below(order@, pages.len()) ==> match catalog_reference(
                    old(self).document(),
                    "Pages"@,
                ) {
                    Some(root) => (dictionary_ids(old(self).document()).contains(root) ==> {
                        &&& integer_entry(final(self).document(), root, "Count"@) == Some(
                            order@.len() as i64,
                        )
                        &&& reference_list_entry(final(self).document(), root, "Kids"@) == Some(
                            reordered(pages, order@),
                        )
                        &&& order@.len() <= document_object_ids(old(self).document()).len()
                            ==> document_pages(final(self).document()) == reordered(
                            pages,
                            order@,
                        )
                        &&& order@.len() <= pages.len() ==> document_pages(final(self).document())
                            == reordered(pages, order@)
                        &&& changes_only_owner(old(self).document(), final(self).document(), root)
                    }) && (!dictionary_ids(old(self).document()).contains(root) ==> final(self).document()
                        == old(self).document()),
                    None => final(self).document() == old(self).document(),
                }
            }),
    {
        let pages = page_ids(&self.doc);
        let new_order = reorder_ids(&pages, order)?;
        proof {
            reveal_strlit("Count");
            reveal_strlit("Kids");
            reveal_strlit("Type");
            reveal_strlit("Linearized");
            reveal_strlit("Pages");
            assert("Count"@.len() == 5);
            assert("Count"@ != "Kids"@);
            assert("Count"@ != "Pages"@) by {
                assert("Count"@[0] != "Pages"@[0]);
            }
            assert("Type"@.len() == 4);
            assert("Linearized"@.len() == 10);
        }
        match read_catalog_reference(&self.doc, "Pages") {
            Some(root) => {
                let count = new_order.len() as i64;
                if set_integer_entry(&mut self.doc, root, "Count", count) {
                    proof {
                        assert forall|i: int| 0 <= i < new_order@.len() implies page_dictionary_ids(
                            self.doc,
                        ).contains(#[trigger] new_order@[i]) by {
                            assert(pages@.contains(new_order@[i]));
                        }
                    }
                    set_reference_list(&mut self.doc, root, "Kids", new_order);
                }
            },
            None => {},
        }
        Ok(())
    }

    /// Copy the pages with 0-based indices in `range`, in order, into a new
    /// document with a page tree of its own: its root is `(1, 0)`, the
    /// catalog `(2, 0)`, and the copies follow from `(3, 0)`; `InvalidPage`
    /// names the first index that is not a page. An empty range gives an
    /// empty document.
    pub fn extract_pages(&self, range: Range<usize>) -> (r: Result<lopdf::Document>)
        ensures
            ({
                let len = document_pages(self.document()).len();
                &&& (range.start < range.end && range.end > len) ==> r == Err::<
                    lopdf::Document,
                    PdfError,
                >(PdfError::InvalidPage(if range.start > len { range.start } else { len as usize }))
                &&& range.start >= range.end ==> r is Ok && document_object_ids(r->Ok_0) == Set::<
                    ObjectId,
                >::empty() && document_pages(r->Ok_0) == Seq::<ObjectId>::empty()
                &&& (range.start < range.end <= len) ==> r is Ok && (range.end - range.start + 2
                    < u32::MAX ==> extracted_from(
                    r->Ok_0,
                    self.document(),
                    range.start as int,
                    range.end - range.start,
                ))
            }),
    {
        let pages = page_ids(&self.doc);
        let mut out = new_document();
        if range.start >= range.end {
            return Ok(out);
        }
        if range.end > pages.len() {
            let first_bad = if range.start > pages.len() {
                range.start
            } else {
                pages.len()
            };
            return Err(PdfError::InvalidPage(first_bad));
        }
        let count = range.end - range.start;
        let root = add_dictionary(&mut out);
        let catalog = add_dictionary(&mut out);
        set_name_entry(&mut out, root, "Type", "Pages");
        set_integer_entry(&mut out, root, "Count", count as i64);
        set_name_entry(&mut out, catalog, "Type", "Catalog");
        set_reference_entry(&mut out, catalog, "Pages", root);
        proof {
            assert(document_object_ids(out) =~= first_ids(2));
        }
        let mut kids: Vec<ObjectId> = Vec::new();
        let mut idx: usize = range.start;
        while idx < range.end
            invariant
                range.start <= idx <= range.end <= pages@.len(),
                count == range.end - range.start,
                forall|i: int|
                    0 <= i < pages@.len() ==> dictionary_ids(self.doc).contains(#[trigger] pages@[i]),
                forall|i: int|
                    0 <= i < pages@.len() ==> page_dictionary_ids(self.doc).contains(#[trigger] pages@[i]),
                pages@ == document_pages(self.doc),
                root == (1u32, 0u16),
                catalog == (2u32, 0u16),
                kids@.len() == idx - range.start,
                count + 2 < u32::MAX ==> {
                    &&& document_object_ids(out) == first_ids((idx - range.start + 2) as nat)
                    &&& dictionary_ids(out).contains(root)
                    &&& dictionary_ids(out).contains(catalog)
                    &&& dictionary_owner(out, root) == root
                    &&& reference_entry(out, catalog, "Pages"@) == Some(root)
                    &&& kids@ == Seq::new((idx - range.start) as nat, |k: int| copy_id(k))
                    &&& forall|j: int|
                        0 <= j < kids@.len() ==> page_dictionary_ids(out).contains(#[trigger] kids@[j])
                    &&& copies_pages(out, self.doc, range.start as int, idx - range.start)
                },
            decreases range.end - idx,
        {
            let ghost before = document_object_ids(out);
            let ghost prev = out;
            let ghost n = (idx - range.start) as nat;
            let ghost prev_kids = kids@;
            match get_object(&self.doc, pages[idx]) {
                Some(obj) => {
                    let id = clone_object_into(&mut out, obj);
                    kids.push(id);
                    proof {
                        if count + 2 < u32::MAX {
                            assert(is_greatest(before, ((n + 2) as u32, 0u16)));
                            assert(id == copy_id(n as int));
                            assert(!before.contains(id));
                            assert(document_object_ids(out) =~= first_ids(n + 3));
                            assert(held_object(self.doc, dictionary_owner(self.doc, pages@[idx as int]))
                                == Some(*obj));
                            assert(page_dictionary_ids(out).contains(id));
                            assert(kids@ =~= Seq::new(n + 1, |k: int| copy_id(k)));
                            assert forall|j: int| 0 <= j < kids@.len() implies page_dictionary_ids(
                                out,
                            ).contains(#[trigger] kids@[j]) by {
                                if j < n {
                                    assert(kids@[j] == prev_kids[j]);
                                    assert(page_dictionary_ids(prev).contains(prev_kids[j]));
                                }
                            }
                            assert forall|k: int| 0 <= k < n + 1 implies #[trigger] held_object(
                                out,
                                copy_id(k),
                            ) == held_object(
                                self.doc,
                                dictionary_owner(self.doc, document_pages(self.doc)[range.start + k]),
                            ) by {
                                if k < n {
                                    assert(held_object(prev, copy_id(k)) == held_object(
                                        self.doc,
                                        dictionary_owner(self.doc, document_pages(self.doc)[range.start + k]),
                                    ));
                                }
                            }
                        }
                    }
                },
                None => {},
            }
            idx = idx + 1;
        }
        set_trailer_root(&mut out, catalog);
        proof {
            if count + 2 < u32::MAX {
                lemma_first_ids_len((count + 2) as nat);
            }
        }
        let ghost before_kids = out;
        set_reference_list(&mut out, root, "Kids", kids);
        proof {
            if count + 2 < u32::MAX {
                assert forall|k: int| 0 <= k < count implies #[trigger] held_object(out, copy_id(k))
                    == held_object(
                    self.doc,
                    dictionary_owner(self.doc, document_pages(self.doc)[range.start + k]),
                ) by {
                    assert(copy_id(k) != root);
                    assert(held_object(before_kids, copy_id(k)) == held_object(
                        self.doc,
                        dictionary_owner(self.doc, document_pages(self.doc)[range.start + k]),
                    ));
                }
            }
        }
        Ok(out)
    }

    /// The number of pages.
    pub fn page_count(&self) -> (n: usize)
        ensures
            n == document_pages(self.document()).len(),
    {
        page_ids(&self.doc).len()
    }

    /// The document, for saving or further use.
    pub fn into_inner(self) -> (d: lopdf::Document)
        ensures
            d == self.document(),
    {
        self.doc
    }
}

} // verus!
