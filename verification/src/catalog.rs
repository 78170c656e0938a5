//! Trusted interface to the bidirectional map that assigns each file path a
//! stable small integer id.

use vstd::prelude::*;

use crate::FileId;

verus! {

#[verifier::external_type_specification]
#[verifier::external_body]
#[verifier::reject_recursive_types(L)]
#[verifier::reject_recursive_types(R)]
#[verifier::reject_recursive_types(LS)]
#[verifier::reject_recursive_types(RS)]
pub struct ExBiHashMap<L, R, LS, RS>(bimap::BiHashMap<L, R, LS, RS>);

/// The path-to-file-id bijection.
pub type Catalog = bimap::BiHashMap<String, FileId>;

/// What the catalog holds: each stored path mapped to its file id.
pub uninterp spec fn catalog_pairs(m: Catalog) -> Map<Seq<char>, FileId>;

/// Relies on bimap::BiHashMap::new: a freshly created bimap holds no pairs.
#[verifier::external_body]
pub(crate) fn catalog_new() -> (m: Catalog)
    ensures
        catalog_pairs(m) =~= Map::empty(),
{
    bimap::BiHashMap::new()
}

/// Relies on bimap::BiHashMap::get_by_left: `Some` exactly for a stored
/// path, carrying the file id that path maps to.
#[verifier::external_body]
pub(crate) fn catalog_get_by_path(m: &Catalog, path: &String) -> (r: Option<FileId>)
    ensures
        match r {
            Some(id) => catalog_pairs(*m).contains_key(path@) && catalog_pairs(*m)[path@] == id,
            None => !catalog_pairs(*m).contains_key(path@),
        },
{
    m.get_by_left(path).copied()
}

/// Relies on bimap::BiHashMap::get_by_right: `Some` exactly when some stored
/// path maps to the given file id, returning that path.
#[verifier::external_body]
pub(crate) fn catalog_get_by_id(m: &Catalog, id: FileId) -> (r: Option<String>)
    ensures
        match r {
            Some(p) => catalog_pairs(*m).contains_key(p@) && catalog_pairs(*m)[p@] == id,
            None => forall|k: Seq<char>|
                catalog_pairs(*m).contains_key(k) ==> catalog_pairs(*m)[k] != id,
        },
{
    m.get_by_right(&id).cloned()
}

/// Relies on bimap::BiHashMap::insert: when neither the path nor the id is
/// stored yet, the pair is added and every other pair is kept.
#[verifier::external_body]
pub(crate) fn catalog_insert(m: &mut Catalog, path: String, id: FileId)
    requires
        !catalog_pairs(*old(m)).contains_key(path@),
        forall|k: Seq<char>|
            catalog_pairs(*old(m)).contains_key(k) ==> catalog_pairs(*old(m))[k] != id,
    ensures
        catalog_pairs(*final(m)) == catalog_pairs(*old(m)).insert(path@, id),
{
    let _ = m.insert(path, id);
}

} // verus!
