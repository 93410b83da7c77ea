//! Moving between the folders the viewer navigates.
//!
//! Every listing is taken fresh from disk by the caller, because files can be
//! deleted or moved while the viewer is open; the choice made from a listing
//! is made here.
use vstd::prelude::*;

use crate::media::{agreed_format, is_supported};
use crate::natural_sort::{natural_order, natural_order_is_antisymmetric, natural_order_of};
use crate::natural_sort_laws::{lowercase_keeps_digits_in, natural_order_is_transitive};
use crate::text::{chars_of, Order};

verus! {

broadcast use vstd::seq_lib::group_to_multiset_ensures, vstd::multiset::group_multiset_axioms;

/// Which way ← / → and ↑ / ↓ move.
#[derive(Clone, Copy, Debug, PartialEq, Eq, Structural)]
pub enum Step {
    Backward,
    Forward,
}

/// Whether `has_images` may have answered `answer` for `folder`.
pub open spec fn answered<E, F: Fn(&E) -> bool>(has_images: F, folder: E, answer: bool) -> bool {
    has_images.ensures((&folder,), answer)
}

/// The folders a step from position `current` passes over, as a range of
/// positions `lo..hi` in `siblings`: those after `current` going forward,
/// those before it going backward.
pub open spec fn step_range(len: nat, current: nat, step: Step) -> (int, int) {
    match step {
        Step::Forward => (current + 1 as int, len as int),
        Step::Backward => (0, if current < len { current as int } else { len as int }),
    }
}

/// The next sibling folder in `step` from `current` (the position of the
/// folder being shown among its `siblings`, natural-ordered) that holds at
/// least one image, skipping image-less folders entirely. `has_images` looks
/// at one folder; it is asked about the candidates nearest first, and no
/// further once one answers yes.
///
/// `None` when `current` is unknown or no folder in that direction has images.
pub fn next_folder_with_images<E, F: Fn(&E) -> bool>(
    siblings: &[E],
    current: Option<usize>,
    step: Step,
    has_images: F,
) -> (r: Option<usize>)
    requires
        forall|i: int| 0 <= i < siblings@.len() ==> has_images.requires((&siblings@[i],)),
    ensures
        current is None ==> r is None,
        current matches Some(c) ==> ({
            let (lo, hi) = step_range(siblings@.len(), c as nat, step);
            match r {
                Some(k) => lo <= k < hi && answered(has_images, siblings@[k as int], true) && (forall|m: int|
                    lo <= m < hi && (if step == Step::Forward { m < k } else { k < m }) ==> answered(
                        has_images,
                        siblings@[m],
                        false,
                    )),
                None => forall|m: int| lo <= m < hi ==> answered(has_images, siblings@[m], false),
            }
        }),
{
    let c = match current {
        Some(c) => c,
        None => {
            return None;
        },
    };
    let ghost (lo, hi) = step_range(siblings@.len(), c as nat, step);
    match step {
        Step::Forward => {
            if c >= siblings.len() {
                return None;
            }
            let mut k = c + 1;
            while k < siblings.len()
                invariant
                    current == Some(c),
                    step == Step::Forward,
                    lo == c + 1,
                    hi == siblings@.len(),
                    lo <= k <= hi,
                    forall|i: int| 0 <= i < siblings@.len() ==> has_images.requires((&siblings@[i],)),
                    forall|m: int| lo <= m < k ==> answered(has_images, siblings@[m], false),
                decreases siblings.len() - k,
            {
                if has_images(&siblings[k]) {
                    return Some(k);
                }
                k = k + 1;
            }
            None
        },
        Step::Backward => {
            let mut k = if c < siblings.len() {
                c
            } else {
                siblings.len()
            };
            while k > 0
                invariant
                    current == Some(c),
                    step == Step::Backward,
                    lo == 0,
                    hi == (if c < siblings@.len() { c as int } else { siblings@.len() as int }),
                    0 <= k <= hi,
                    forall|i: int| 0 <= i < siblings@.len() ==> has_images.requires((&siblings@[i],)),
                    forall|m: int| k <= m < hi ==> answered(has_images, siblings@[m], false),
                decreases k,
            {
                if has_images(&siblings[k - 1]) {
                    return Some(k - 1);
                }
                k = k - 1;
            }
            None
        },
    }
}

// ---------------------------------------------------------------------------
// Listings
// ---------------------------------------------------------------------------

/// The text of each name in a listing.
pub open spec fn texts_of(names: Seq<String>) -> Seq<Seq<char>> {
    names.map_values(|s: String| s@)
}

/// Whether the name at position `a` comes no later than the one at `b`.
pub open spec fn no_later(texts: Seq<Seq<char>>, a: usize, b: usize) -> bool {
    natural_order(texts[a as int], texts[b as int]) != Order::Greater
}

/// Each name `order` lists comes no later, in natural order, than the next.
pub open spec fn naturally_ordered(texts: Seq<Seq<char>>, order: Seq<usize>) -> bool {
    forall|i: int| 0 <= i < order.len() - 1 ==> #[trigger] no_later(texts, order[i], order[i + 1])
}

/// Every position in `order` is below `n`.
pub open spec fn all_below(order: Seq<usize>, n: nat) -> bool {
    forall|i: int| 0 <= i < order.len() ==> #[trigger] order[i] < n
}

/// The characters of every name, in one table.
fn key_table(names: &[String]) -> (keys: Vec<Vec<char>>)
    ensures
        keys@.len() == names@.len(),
        forall|i: int| 0 <= i < names@.len() ==> (#[trigger] keys@[i])@ == names@[i]@,
{
    let mut keys: Vec<Vec<char>> = Vec::new();
    let mut k: usize = 0;
    while k < names.len()
        invariant
            k <= names@.len(),
            keys@.len() == k,
            forall|i: int| 0 <= i < k ==> (#[trigger] keys@[i])@ == names@[i]@,
        decreases names.len() - k,
    {
        keys.push(chars_of(names[k].as_str()));
        k = k + 1;
    }
    keys
}

/// The texts a key table holds.
pub open spec fn key_texts(keys: Seq<Vec<char>>) -> Seq<Seq<char>> {
    keys.map_values(|k: Vec<char>| k@)
}

/// Merges two naturally ordered runs of positions into one.
fn merge(keys: &Vec<Vec<char>>, left: Vec<usize>, right: Vec<usize>) -> (out: Vec<usize>)
    requires
        all_below(left@, keys@.len()),
        all_below(right@, keys@.len()),
        naturally_ordered(key_texts(keys@), left@),
        naturally_ordered(key_texts(keys@), right@),
    ensures
        out@.to_multiset() == left@.to_multiset().add(right@.to_multiset()),
        all_below(out@, keys@.len()),
        naturally_ordered(key_texts(keys@), out@),
{
    let ghost texts = key_texts(keys@);
    let mut out: Vec<usize> = Vec::new();
    let mut i: usize = 0;
    let mut j: usize = 0;
    while i < left.len() || j < right.len()
        invariant
            i <= left@.len(),
            j <= right@.len(),
            texts == key_texts(keys@),
            all_below(left@, keys@.len()),
            all_below(right@, keys@.len()),
            naturally_ordered(texts, left@),
            naturally_ordered(texts, right@),
            out@.to_multiset() == left@.take(i as int).to_multiset().add(right@.take(j as int).to_multiset()),
            all_below(out@, keys@.len()),
            naturally_ordered(texts, out@),
            out@.len() > 0 && i < left@.len() ==> no_later(texts, out@.last(), left@[i as int]),
            out@.len() > 0 && j < right@.len() ==> no_later(texts, out@.last(), right@[j as int]),
        decreases left.len() - i + right.len() - j,
    {
        let take_left = if i < left.len() && j < right.len() {
            let a = left[i];
            let b = right[j];
            let o = natural_order_of(&keys[a], &keys[b]);
            proof {
                assert(texts[a as int] == keys@[a as int]@);
                assert(texts[b as int] == keys@[b as int]@);
            }
            match o {
                Order::Greater => false,
                _ => true,
            }
        } else {
            i < left.len()
        };
        let ghost old_out = out@;
        if take_left {
            let x = left[i];
            proof {
                assert(left@.take(i + 1) =~= left@.take(i as int).push(x));
                if i + 1 < left@.len() {
                    assert(no_later(texts, left@[i as int], left@[i + 1]));
                }
            }
            out.push(x);
            i = i + 1;
            proof {
                assert(out@ =~= old_out.push(x));
                assert forall|m: int| 0 <= m < out@.len() - 1 implies #[trigger] no_later(texts, out@[m], out@[m + 1]) by {
                    if m < old_out.len() - 1 {
                        assert(no_later(texts, old_out[m], old_out[m + 1]));
                    }
                }
            }
        } else {
            let x = right[j];
            proof {
                assert(right@.take(j + 1) =~= right@.take(j as int).push(x));
                if j + 1 < right@.len() {
                    assert(no_later(texts, right@[j as int], right@[j + 1]));
                }
                if i < left@.len() {
                    natural_order_is_antisymmetric(texts[left@[i as int] as int], texts[x as int]);
                }
            }
            out.push(x);
            j = j + 1;
            proof {
                assert(out@ =~= old_out.push(x));
                assert forall|m: int| 0 <= m < out@.len() - 1 implies #[trigger] no_later(texts, out@[m], out@[m + 1]) by {
                    if m < old_out.len() - 1 {
                        assert(no_later(texts, old_out[m], old_out[m + 1]));
                    }
                }
            }
        }
    }
    proof {
        assert(left@.take(left@.len() as int) =~= left@);
        assert(right@.take(right@.len() as int) =~= right@);
    }
    out
}

/// Arranges positions so that their names come in natural order.
fn sort_positions(keys: &Vec<Vec<char>>, positions: Vec<usize>) -> (r: Vec<usize>)
    requires
        all_below(positions@, keys@.len()),
    ensures
        r@.to_multiset() == positions@.to_multiset(),
        all_below(r@, keys@.len()),
        naturally_ordered(key_texts(keys@), r@),
    decreases positions@.len(),
{
    if positions.len() <= 1 {
        return positions;
    }
    let ghost whole = positions@;
    let mut left = positions;
    let half = left.len() / 2;
    let right = left.split_off(half);
    proof {
        assert(whole =~= left@ + right@);
        vstd::seq_lib::lemma_multiset_commutative(left@, right@);
    }
    let sorted_left = sort_positions(keys, left);
    let sorted_right = sort_positions(keys, right);
    merge(keys, sorted_left, sorted_right)
}

/// Whether `ask` may have answered `answer` about the entry at position `i`.
pub open spec fn said<F: Fn(usize) -> bool>(ask: F, i: usize, answer: bool) -> bool {
    ask.ensures((i,), answer)
}

/// Whether the positions in `order` rise strictly.
pub open spec fn rising(order: Seq<usize>) -> bool {
    forall|a: int, b: int| 0 <= a < b < order.len() ==> order[a] < order[b]
}

/// Whether the entry named `name` (at position `i`) counts as an image: its
/// extension is a supported one and `is_file` said it is a file. Where the
/// platforms may read a name's extension differently (a name holding `\\`
/// whose last part starts with a dot, for example) the extension is the
/// platform's reading.
pub open spec fn kept_as_image<F: Fn(usize) -> bool>(name: Seq<char>, is_file: F, i: usize) -> bool {
    &&& said(is_file, i, true)
    &&& agreed_format(name) matches Some(f) ==> f is Some
}

/// Whether leaving out the entry named `name` (at position `i`) is right: it
/// has no supported extension, or `is_file` said it is no file.
pub open spec fn dropped_as_image<F: Fn(usize) -> bool>(name: Seq<char>, is_file: F, i: usize) -> bool {
    agreed_format(name) matches Some(f) ==> f is None || said(is_file, i, false)
}

/// The positions, in listing order, of the entries that are images.
fn image_positions<F: Fn(usize) -> bool>(names: &[String], is_file: &F) -> (kept: Vec<usize>)
    requires
        forall|i: usize| i < names@.len() ==> is_file.requires((i,)),
    ensures
        rising(kept@),
        all_below(kept@, names@.len()),
        forall|k: usize| kept@.contains(k) ==> kept_as_image(names@[k as int]@, *is_file, k),
        forall|i: usize| i < names@.len() && !kept@.contains(i) ==> dropped_as_image(names@[i as int]@, *is_file, i),
{
    let mut kept: Vec<usize> = Vec::new();
    let mut i: usize = 0;
    while i < names.len()
        invariant
            i <= names@.len(),
            forall|j: usize| j < names@.len() ==> is_file.requires((j,)),
            rising(kept@),
            forall|m: int| 0 <= m < kept@.len() ==> #[trigger] kept@[m] < i,
            forall|k: usize| kept@.contains(k) ==> kept_as_image(names@[k as int]@, *is_file, k),
            forall|j: usize| j < i && !kept@.contains(j) ==> dropped_as_image(names@[j as int]@, *is_file, j),
        decreases names.len() - i,
    {
        let supported = is_supported(names[i].as_str());
        let keep = if supported {
            is_file(i)
        } else {
            false
        };
        let ghost before = kept@;
        if keep {
            kept.push(i);
            proof {
                assert(kept@ =~= before.push(i));
                assert forall|k: usize| kept@.contains(k) implies kept_as_image(names@[k as int]@, *is_file, k) by {
                    if k != i {
                        let m = choose|m: int| 0 <= m < kept@.len() && kept@[m] == k;
                        assert(before[m] == k);
                        assert(before.contains(k));
                    }
                }
                assert forall|j: usize| j <= i && !kept@.contains(j) implies dropped_as_image(
                    names@[j as int]@,
                    *is_file,
                    j,
                ) by {
                    assert(kept@[kept@.len() - 1] == i);
                    if before.contains(j) {
                        let m = choose|m: int| 0 <= m < before.len() && before[m] == j;
                        assert(kept@[m] == j);
                    }
                }
            }
        } else {
            proof {
                assert(dropped_as_image(names@[i as int]@, *is_file, i));
            }
        }
        i = i + 1;
    }
    proof {
        assert forall|m: int| 0 <= m < kept@.len() implies #[trigger] kept@[m] < names@.len() by {}
    }
    kept
}

/// The key table of a listing holds the listing's texts.
proof fn lemma_key_texts(names: Seq<String>, keys: Seq<Vec<char>>)
    requires
        keys.len() == names.len(),
        forall|i: int| 0 <= i < names.len() ==> (#[trigger] keys[i])@ == names[i]@,
    ensures
        key_texts(keys) == texts_of(names),
{
    assert(key_texts(keys) =~= texts_of(names));
}

/// The same positions, rearranged: membership carries over, and so does
/// having no position twice.
proof fn lemma_rearranged(before: Seq<usize>, after: Seq<usize>)
    requires
        after.to_multiset() == before.to_multiset(),
        rising(before),
    ensures
        after.no_duplicates(),
        forall|k: usize| after.contains(k) <==> before.contains(k),
{
    assert(before.no_duplicates());
    before.lemma_multiset_has_no_duplicates();
    after.lemma_multiset_has_no_duplicates_conv();
    assert forall|k: usize| after.contains(k) <==> before.contains(k) by {
        vstd::seq_lib::to_multiset_contains(after, k);
        vstd::seq_lib::to_multiset_contains(before, k);
    }
}

/// The displayable images of a folder listing, in natural order of their
/// names. `names` holds the name of each entry (the last component of its
/// path); an entry is an image when its extension is a supported one and
/// `is_file` says it is a file. `is_file` is asked only about entries with
/// a supported extension. The result lists positions in `names`.
pub fn list_images<F: Fn(usize) -> bool>(names: &[String], is_file: F) -> (r: Vec<usize>)
    requires
        forall|i: usize| i < names@.len() ==> is_file.requires((i,)),
    ensures
        r@.no_duplicates(),
        all_below(r@, names@.len()),
        naturally_ordered(texts_of(names@), r@),
        forall|k: usize| r@.contains(k) ==> kept_as_image(names@[k as int]@, is_file, k),
        forall|i: usize| i < names@.len() && !r@.contains(i) ==> dropped_as_image(names@[i as int]@, is_file, i),
{
    let kept = image_positions(names, &is_file);
    let keys = key_table(names);
    let r = sort_positions(&keys, kept);
    proof {
        lemma_key_texts(names@, keys@);
        lemma_rearranged(kept@, r@);
    }
    r
}

/// Whether a folder listing holds at least one displayable image, by the
/// rule of [`list_images`]. Folders that do not are invisible to ↑ / ↓
/// navigation. `is_file` is asked about entries with a supported extension,
/// in listing order, and no further once one is a file.
pub fn has_images<F: Fn(usize) -> bool>(names: &[String], is_file: F) -> (r: bool)
    requires
        forall|i: usize| i < names@.len() ==> is_file.requires((i,)),
    ensures
        r ==> exists|k: usize| k < names@.len() && #[trigger] kept_as_image(names@[k as int]@, is_file, k),
        !r ==> forall|i: usize| i < names@.len() ==> #[trigger] dropped_as_image(names@[i as int]@, is_file, i),
{
    let mut i: usize = 0;
    while i < names.len()
        invariant
            i <= names@.len(),
            forall|j: usize| j < names@.len() ==> is_file.requires((j,)),
            forall|j: usize| j < i ==> #[trigger] dropped_as_image(names@[j as int]@, is_file, j),
        decreases names.len() - i,
    {
        let supported = is_supported(names[i].as_str());
        if supported {
            if is_file(i) {
                assert(kept_as_image(names@[i as int]@, is_file, i));
                return true;
            }
        }
        i = i + 1;
    }
    false
}

/// The folders of a listing of their parent, in natural order of their
/// names (the folder being shown among them): the positions of the entries
/// `is_dir` says are folders.
pub fn sibling_folders<F: Fn(usize) -> bool>(names: &[String], is_dir: F) -> (r: Vec<usize>)
    requires
        forall|i: usize| i < names@.len() ==> is_dir.requires((i,)),
    ensures
        r@.no_duplicates(),
        all_below(r@, names@.len()),
        naturally_ordered(texts_of(names@), r@),
        forall|k: usize| r@.contains(k) ==> said(is_dir, k, true),
        forall|i: usize| i < names@.len() && !r@.contains(i) ==> said(is_dir, i, false),
{
    let mut kept: Vec<usize> = Vec::new();
    let mut i: usize = 0;
    while i < names.len()
        invariant
            i <= names@.len(),
            forall|j: usize| j < names@.len() ==> is_dir.requires((j,)),
            rising(kept@),
            forall|m: int| 0 <= m < kept@.len() ==> #[trigger] kept@[m] < i,
            forall|k: usize| kept@.contains(k) ==> said(is_dir, k, true),
            forall|j: usize| j < i && !kept@.contains(j) ==> said(is_dir, j, false),
        decreases names.len() - i,
    {
        let ghost before = kept@;
        if is_dir(i) {
            kept.push(i);
            proof {
                assert(kept@ =~= before.push(i));
                assert forall|k: usize| kept@.contains(k) implies said(is_dir, k, true) by {
                    if k != i {
                        let m = choose|m: int| 0 <= m < kept@.len() && kept@[m] == k;
                        assert(before[m] == k);
                        assert(before.contains(k));
                    }
                }
                assert forall|j: usize| j <= i && !kept@.contains(j) implies said(is_dir, j, false) by {
                    assert(kept@[kept@.len() - 1] == i);
                    if before.contains(j) {
                        let m = choose|m: int| 0 <= m < before.len() && before[m] == j;
                        assert(kept@[m] == j);
                    }
                }
            }
        }
        i = i + 1;
    }
    proof {
        assert forall|m: int| 0 <= m < kept@.len() implies #[trigger] kept@[m] < names@.len() by {}
    }
    let keys = key_table(names);
    let r = sort_positions(&keys, kept);
    proof {
        lemma_key_texts(names@, keys@);
        lemma_rearranged(kept@, r@);
    }
    r
}

/// A listing in which each name comes no later than the next is sorted: any
/// name comes no later than every name after it (natural order being
/// transitive for names that lowercase as Unicode does).
pub proof fn naturally_ordered_is_sorted(texts: Seq<Seq<char>>, order: Seq<usize>, i: int, j: int)
    requires
        naturally_ordered(texts, order),
        all_below(order, texts.len()),
        forall|k: int| 0 <= k < texts.len() ==> lowercase_keeps_digits_in(#[trigger] texts[k]),
        0 <= i < j < order.len(),
    ensures
        no_later(texts, order[i], order[j]),
    decreases j - i,
{
    assert(no_later(texts, order[j - 1], order[j - 1 + 1]));
    if i < j - 1 {
        naturally_ordered_is_sorted(texts, order, i, j - 1);
        let x = texts[order[i] as int];
        let y = texts[order[j - 1] as int];
        let z = texts[order[j] as int];
        assert(order[i] < texts.len() && order[j - 1] < texts.len() && order[j] < texts.len());
        natural_order_is_transitive(x, y, z);
    }
}

} // verus!
