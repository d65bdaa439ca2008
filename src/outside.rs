//! Declarations of the outside types the library holds, and the calls it
//! makes into them.

use vstd::prelude::*;
use indexmap::IndexSet;
use rustc_hash::{FxHashMap, FxHashSet};
use sprs::TriMat;

verus! {

/// Relies on `std::string::String::push`: appends one character.
#[verifier::external_body]
pub(crate) fn push_char(s: &mut String, c: char)
    ensures
        final(s)@ == old(s)@.push(c),
{
    s.push(c)
}

/// The pieces of a text between runs of ASCII whitespace.
pub uninterp spec fn ascii_words(s: Seq<char>) -> Seq<Seq<char>>;

/// Relies on `str::split_ascii_whitespace`: the text's pieces between runs
/// of ASCII whitespace, in order.
#[verifier::external_body]
pub(crate) fn split_words(s: &str) -> (r: Vec<String>)
    ensures
        r@.map_values(|w: String| w@) == ascii_words(s@),
{
    s.split_ascii_whitespace().map(|w| w.to_string()).collect()
}

// ---------------------------------------------------------------- indexmap

/// `indexmap::IndexSet`, held opaquely; its contents are `set_items`.
#[verifier::external_type_specification]
#[verifier::external_body]
#[verifier::reject_recursive_types(T)]
#[verifier::reject_recursive_types(S)]
pub struct ExIndexSet<T, S>(indexmap::IndexSet<T, S>);

/// The strings an insertion-ordered set holds, by position.
pub uninterp spec fn set_items(s: IndexSet<String>) -> Seq<Seq<char>>;

/// Relies on `IndexSet::new`: the new set is empty.
#[verifier::external_body]
pub(crate) fn index_set_new() -> (r: IndexSet<String>)
    ensures
        set_items(r).len() == 0,
{
    IndexSet::new()
}

/// Relies on `IndexSet::len`: the number of items held.
#[verifier::external_body]
pub(crate) fn index_set_len(s: &IndexSet<String>) -> (r: usize)
    ensures
        r == set_items(*s).len(),
{
    s.len()
}

/// Relies on `IndexSet::insert_full`: an item already held keeps its
/// position and the set is unchanged; a new item is appended at the end.
#[verifier::external_body]
pub(crate) fn index_set_insert_full(s: &mut IndexSet<String>, w: String) -> (r: (usize, bool))
    ensures
        set_items(*old(s)).contains(w@) ==> {
            &&& set_items(*final(s)) == set_items(*old(s))
            &&& r.1 == false
            &&& r.0 < set_items(*old(s)).len()
            &&& set_items(*old(s))[r.0 as int] == w@
        },
        !set_items(*old(s)).contains(w@) ==> {
            &&& set_items(*final(s)) == set_items(*old(s)).push(w@)
            &&& r.1 == true
            &&& r.0 == set_items(*old(s)).len()
        },
{
    s.insert_full(w)
}

/// Relies on `IndexSet::get_index_of`: the position of an item, if held.
#[verifier::external_body]
pub(crate) fn index_set_get_index_of(s: &IndexSet<String>, w: &str) -> (r: Option<usize>)
    ensures
        match r {
            Some(i) => i < set_items(*s).len() && set_items(*s)[i as int] == w@,
            None => !set_items(*s).contains(w@),
        },
{
    s.get_index_of(w)
}

/// Relies on `IndexSet::get_index`: the item at a position, if in range.
#[verifier::external_body]
pub(crate) fn index_set_get_index<'a>(s: &'a IndexSet<String>, i: usize) -> (r: Option<&'a String>)
    ensures
        (r is Some) == (i < set_items(*s).len()),
        r matches Some(w) ==> w@ == set_items(*s)[i as int],
{
    s.get_index(i)
}

// ---------------------------------------------------------------- rustc-hash

/// `rustc_hash::FxBuildHasher`, the hasher of the Fx sets and maps.
#[verifier::external_type_specification]
#[verifier::external_body]
pub struct ExFxBuildHasher(rustc_hash::FxBuildHasher);

/// The words a set of strings holds.
pub open spec fn word_set(s: FxHashSet<String>) -> Set<Seq<char>> {
    s@.map(|x: String| x@)
}

/// Relies on `HashSet::default` with the Fx hasher: the new set is empty.
#[verifier::external_body]
pub(crate) fn word_set_new() -> (r: FxHashSet<String>)
    ensures
        r@ == Set::<String>::empty(),
{
    FxHashSet::default()
}

/// Relies on `HashSet::contains` with the Fx hasher: membership by string
/// equality.
#[verifier::external_body]
pub(crate) fn word_set_contains(s: &FxHashSet<String>, w: &str) -> (r: bool)
    ensures
        r == word_set(*s).contains(w@),
{
    s.contains(w)
}

/// A table from term index to count.
pub type CountTable = FxHashMap<usize, usize>;

/// Relies on `HashMap::default` with the Fx hasher: the new map is empty.
#[verifier::external_body]
pub(crate) fn count_map_new() -> (r: CountTable)
    ensures
        r@.dom() == Set::<usize>::empty(),
{
    FxHashMap::default()
}

/// Relies on `HashMap::get` with the Fx hasher: the value stored at a key.
#[verifier::external_body]
pub(crate) fn count_map_get(m: &CountTable, k: usize) -> (r: Option<usize>)
    ensures
        r == (if m@.contains_key(k) {
            Some(m@[k])
        } else {
            None
        }),
{
    m.get(&k).copied()
}

/// Relies on `HashMap::insert` with the Fx hasher: stores a value at a key.
#[verifier::external_body]
pub(crate) fn count_map_insert(m: &mut CountTable, k: usize, v: usize)
    ensures
        final(m)@ == old(m)@.insert(k, v),
{
    m.insert(k, v);
}

/// Relies on `HashMap::remove` with the Fx hasher: drops a key.
#[verifier::external_body]
pub(crate) fn count_map_remove(m: &mut CountTable, k: usize)
    ensures
        final(m)@ == old(m)@.remove(k),
{
    m.remove(&k);
}

// ---------------------------------------------------------------- sprs

/// `sprs::TriMatBase`, held opaquely; its contents are `triplets` and `tri_shape`.
#[verifier::external_type_specification]
#[verifier::external_body]
#[verifier::reject_recursive_types(IStorage)]
#[verifier::reject_recursive_types(DStorage)]
pub struct ExTriMatBase<IStorage, DStorage>(sprs::TriMatBase<IStorage, DStorage>);

/// The (row, column, value) triplets a triplet matrix holds, in the order
/// they were added.
pub uninterp spec fn triplets(m: TriMat<usize>) -> Seq<(usize, usize, usize)>;

/// The (rows, columns) shape a triplet matrix was made with.
pub uninterp spec fn tri_shape(m: TriMat<usize>) -> (usize, usize);

/// Relies on `TriMat::new`: an empty triplet matrix of the given shape.
#[verifier::external_body]
pub(crate) fn tri_new(rows: usize, cols: usize) -> (r: TriMat<usize>)
    ensures
        triplets(r).len() == 0,
        tri_shape(r) == (rows, cols),
{
    TriMat::new((rows, cols))
}

/// Relies on `TriMat::add_triplet`: appends one triplet; it panics when the
/// row or column lies outside the shape.
#[verifier::external_body]
pub(crate) fn tri_add(m: &mut TriMat<usize>, row: usize, col: usize, val: usize)
    requires
        row < tri_shape(*old(m)).0,
        col < tri_shape(*old(m)).1,
    ensures
        triplets(*final(m)) == triplets(*old(m)).push((row, col, val)),
        tri_shape(*final(m)) == tri_shape(*old(m)),
{
    m.add_triplet(row, col, val)
}

} // verus!
