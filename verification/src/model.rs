//! The mathematical model of a per-file index and of the whole database:
//! what queries can observe, stated independently of arena ids, together
//! with the functional specification of building and updating.

use vstd::prelude::*;

use crate::position::{
    line_starts, locate_position, pos_lt, range_point_cmp, PointCmp, Position, Range,
};
use crate::semantic::Item;
use crate::syntax::{BodyItem, Description, Locate, ModuleDecl, ModuleDeclaration, ModuleInstantiation, SyntaxTree};
use crate::IndexError;

verus! {

/// What one location-index entry shows a query.
#[verifier::ext_equal]
pub ghost enum EntryKind {
    /// A module name occurrence carrying this name; it resolves through the
    /// global symbol table.
    Module { name: Seq<char> },
    /// An identifier occurrence that resolves to its own location.
    Identifier,
}

/// The observable content of one per-file index: its location entries in
/// position order, and the names it declares with their declaration ranges.
#[verifier::ext_equal]
pub ghost struct FileView {
    pub entries: Seq<(Range, EntryKind)>,
    pub decls: Map<Seq<char>, Range>,
}

impl FileView {
    pub open spec fn empty() -> FileView {
        FileView { entries: Seq::empty(), decls: Map::empty() }
    }
}

/// The kind an item shows a query.
pub open spec fn kind_of(item: Item) -> EntryKind {
    match item {
        Item::ModuleIdentifier { module_name, .. } => EntryKind::Module { name: module_name@ },
        _ => EntryKind::Identifier,
    }
}

/// Entries are strictly sorted by their begin position.
pub open spec fn begins_sorted<T>(entries: Seq<(Range, T)>) -> bool {
    forall|i: int, j: int| 0 <= i < j < entries.len() ==> pos_lt(entries[i].0.begin, entries[j].0.begin)
}

/// Some entry already begins at `b`.
pub open spec fn has_begin<T>(entries: Seq<(Range, T)>, b: Position) -> bool {
    exists|i: int| 0 <= i < entries.len() && entries[i].0.begin == b
}

/// The sorted insertion point for begin position `b`: past every entry that
/// begins strictly before it.
pub open spec fn insert_pos<T>(entries: Seq<(Range, T)>, b: Position) -> int
    decreases entries.len(),
{
    if entries.len() == 0 {
        0
    } else if pos_lt(entries.last().0.begin, b) {
        entries.len() as int
    } else {
        insert_pos(entries.drop_last(), b)
    }
}

/// The insertion point is pinned down by what lies strictly before `b`.
pub proof fn lemma_insert_pos_unique<T>(entries: Seq<(Range, T)>, b: Position, k: int)
    requires
        0 <= k <= entries.len(),
        forall|j: int| 0 <= j < k ==> pos_lt(entries[j].0.begin, b),
        forall|j: int| k <= j < entries.len() ==> !pos_lt(entries[j].0.begin, b),
    ensures
        k == insert_pos(entries, b),
    decreases entries.len(),
{
    if entries.len() == 0 {
    } else if pos_lt(entries.last().0.begin, b) {
        assert(k == entries.len());
    } else {
        assert(k <= entries.len() - 1);
        lemma_insert_pos_unique(entries.drop_last(), b, k);
    }
}

/// Inserting an entry: fails with `DuplicateLocation` when an entry already
/// begins at the same position, else places it at the sorted point.
pub open spec fn abs_insert(entries: Seq<(Range, EntryKind)>, r: Range, k: EntryKind) -> Result<
    Seq<(Range, EntryKind)>,
    IndexError,
> {
    if has_begin(entries, r.begin) {
        Err(IndexError::DuplicateLocation)
    } else {
        Ok(entries.insert(insert_pos(entries, r.begin), (r, k)))
    }
}

/// The range of one token: its position, extended by its length within the
/// row.
pub open spec fn token_range(starts: Seq<usize>, loc: Locate) -> Result<Range, IndexError> {
    match locate_position(starts, loc.line, loc.offset) {
        Some(begin) => Ok(
            Range {
                begin,
                end: Position { row: begin.row, col: (begin.col + loc.len) as usize },
            },
        ),
        None => Err(IndexError::LineIndexMismatch),
    }
}

/// The range of a whole declaration: from the keyword token's position to
/// the end token's position.
pub open spec fn decl_range(starts: Seq<usize>, kw: Locate, end: Locate) -> Result<
    Range,
    IndexError,
> {
    match (locate_position(starts, kw.line, kw.offset), locate_position(
        starts,
        end.line,
        end.offset,
    )) {
        (Some(b), Some(e)) => Ok(Range { begin: b, end: e }),
        _ => Err(IndexError::LineIndexMismatch),
    }
}

/// One instantiation contributes a module-name entry at the referenced
/// type's token and an identifier entry at the instance's own token.
pub open spec fn abs_instantiation(
    starts: Seq<usize>,
    entries: Seq<(Range, EntryKind)>,
    inst: ModuleInstantiation,
) -> Result<Seq<(Range, EntryKind)>, IndexError> {
    match token_range(starts, inst.module_locate) {
        Err(e) => Err(e),
        Ok(tr) => match abs_insert(entries, tr, EntryKind::Module { name: inst.module_name@ }) {
            Err(e) => Err(e),
            Ok(en1) => match token_range(starts, inst.instance_locate) {
                Err(e) => Err(e),
                Ok(ir) => abs_insert(en1, ir, EntryKind::Identifier),
            },
        },
    }
}

/// One body item: instantiations are indexed, plain items are legitimately
/// skipped, everything else is unsupported.
pub open spec fn abs_body_item(
    starts: Seq<usize>,
    entries: Seq<(Range, EntryKind)>,
    item: BodyItem,
) -> Result<Seq<(Range, EntryKind)>, IndexError> {
    match item {
        BodyItem::Instantiation(inst) => abs_instantiation(starts, entries, inst),
        BodyItem::ModuleItem => Ok(entries),
        _ => Err(IndexError::UnsupportedConstruct),
    }
}

/// A module body, processed left to right; the first failing item decides.
pub open spec fn abs_body(
    starts: Seq<usize>,
    entries: Seq<(Range, EntryKind)>,
    items: Seq<BodyItem>,
) -> Result<Seq<(Range, EntryKind)>, IndexError>
    decreases items.len(),
{
    if items.len() == 0 {
        Ok(entries)
    } else {
        match abs_body(starts, entries, items.drop_last()) {
            Err(e) => Err(e),
            Ok(en) => abs_body_item(starts, en, items.last()),
        }
    }
}

/// One module declaration: its own entry over the keyword-to-end range, its
/// body's entries, and its name registered as this file's declaration.
pub open spec fn abs_module(starts: Seq<usize>, fv: FileView, m: ModuleDecl) -> Result<
    FileView,
    IndexError,
> {
    match decl_range(starts, m.keyword, m.end) {
        Err(e) => Err(e),
        Ok(r) => match abs_insert(fv.entries, r, EntryKind::Module { name: m.name@ }) {
            Err(e) => Err(e),
            Ok(en1) => match abs_body(starts, en1, m.items@) {
                Err(e) => Err(e),
                Ok(en2) => Ok(FileView { entries: en2, decls: fv.decls.insert(m.name@, r) }),
            },
        },
    }
}

/// One top-level description: both module header forms are indexed, other
/// descriptions are skipped, wildcard and extern headers are unsupported.
pub open spec fn abs_description(starts: Seq<usize>, fv: FileView, d: Description) -> Result<
    FileView,
    IndexError,
> {
    match d {
        Description::Module(ModuleDeclaration::Nonansi(m)) => abs_module(starts, fv, m),
        Description::Module(ModuleDeclaration::Ansi(m)) => abs_module(starts, fv, m),
        Description::Module(_) => Err(IndexError::UnsupportedConstruct),
        Description::Other => Ok(fv),
    }
}

/// A file's descriptions, processed left to right.
pub open spec fn abs_descriptions(starts: Seq<usize>, fv: FileView, descs: Seq<Description>) -> Result<
    FileView,
    IndexError,
>
    decreases descs.len(),
{
    if descs.len() == 0 {
        Ok(fv)
    } else {
        match abs_descriptions(starts, fv, descs.drop_last()) {
            Err(e) => Err(e),
            Ok(v) => abs_description(starts, v, descs.last()),
        }
    }
}

/// The index one file's tree builds, or the first error indexing it meets.
pub open spec fn build_view(t: SyntaxTree) -> Result<FileView, IndexError> {
    abs_descriptions(line_starts(t.newlines@), FileView::empty(), t.descriptions@)
}

pub proof fn lemma_abs_body_step(
    starts: Seq<usize>,
    entries: Seq<(Range, EntryKind)>,
    items: Seq<BodyItem>,
    k: int,
)
    requires
        0 <= k < items.len(),
    ensures
        abs_body(starts, entries, items.take(k + 1)) == (match abs_body(
            starts,
            entries,
            items.take(k),
        ) {
            Err(e) => Err(e),
            Ok(en) => abs_body_item(starts, en, items[k]),
        }),
{
    assert(items.take(k + 1).drop_last() =~= items.take(k));
    assert(items.take(k + 1).last() == items[k]);
}

pub proof fn lemma_abs_body_err_persists(
    starts: Seq<usize>,
    entries: Seq<(Range, EntryKind)>,
    items: Seq<BodyItem>,
    k: int,
)
    requires
        0 <= k <= items.len(),
        abs_body(starts, entries, items.take(k)) is Err,
    ensures
        abs_body(starts, entries, items) == abs_body(starts, entries, items.take(k)),
    decreases items.len() - k,
{
    if k < items.len() {
        lemma_abs_body_step(starts, entries, items, k);
        lemma_abs_body_err_persists(starts, entries, items, k + 1);
    } else {
        assert(items.take(k) =~= items);
    }
}

pub proof fn lemma_abs_descriptions_step(
    starts: Seq<usize>,
    fv: FileView,
    descs: Seq<Description>,
    k: int,
)
    requires
        0 <= k < descs.len(),
    ensures
        abs_descriptions(starts, fv, descs.take(k + 1)) == (match abs_descriptions(
            starts,
            fv,
            descs.take(k),
        ) {
            Err(e) => Err(e),
            Ok(v) => abs_description(starts, v, descs[k]),
        }),
{
    assert(descs.take(k + 1).drop_last() =~= descs.take(k));
    assert(descs.take(k + 1).last() == descs[k]);
}

pub proof fn lemma_abs_descriptions_err_persists(
    starts: Seq<usize>,
    fv: FileView,
    descs: Seq<Description>,
    k: int,
)
    requires
        0 <= k <= descs.len(),
        abs_descriptions(starts, fv, descs.take(k)) is Err,
    ensures
        abs_descriptions(starts, fv, descs) == abs_descriptions(starts, fv, descs.take(k)),
    decreases descs.len() - k,
{
    if k < descs.len() {
        lemma_abs_descriptions_step(starts, fv, descs, k);
        lemma_abs_descriptions_err_persists(starts, fv, descs, k + 1);
    } else {
        assert(descs.take(k) =~= descs);
    }
}

/// The observable content of the whole database: the path of each file id,
/// each file's index, and the global symbol table as name to declaring file
/// and declaration range.
#[verifier::ext_equal]
pub ghost struct DbView {
    pub paths: Seq<Seq<char>>,
    pub files: Seq<FileView>,
    pub global: Map<Seq<char>, (int, Range)>,
}

/// Some file id has this path.
pub open spec fn contains_path(paths: Seq<Seq<char>>, p: Seq<char>) -> bool {
    exists|i: int| 0 <= i < paths.len() && paths[i] == p
}

/// The file id of a known path.
pub open spec fn path_id(paths: Seq<Seq<char>>, p: Seq<char>) -> int {
    choose|i: int| 0 <= i < paths.len() && paths[i] == p
}

/// The file id `update` resolves or assigns for a path.
pub open spec fn spec_fileid(paths: Seq<Seq<char>>, p: Seq<char>) -> int {
    if contains_path(paths, p) {
        path_id(paths, p)
    } else {
        paths.len() as int
    }
}

/// What one successful `update` does to the database: resolve or assign the
/// file id, swap in the fresh per-file index, remove every name the file's
/// old index had registered, then register every name of the new one.
pub open spec fn spec_update(v: DbView, path: Seq<char>, fv: FileView) -> DbView {
    let fid = spec_fileid(v.paths, path);
    let paths2 = if contains_path(v.paths, path) {
        v.paths
    } else {
        v.paths.push(path)
    };
    let files2 = if contains_path(v.paths, path) {
        v.files.update(fid, fv)
    } else {
        v.files.push(fv)
    };
    let removed = if contains_path(v.paths, path) {
        v.global.remove_keys(v.files[fid].decls.dom())
    } else {
        v.global
    };
    let global2 = removed.union_prefer_right(
        Map::new(
            |k: Seq<char>| fv.decls.contains_key(k),
            |k: Seq<char>| (fid, fv.decls[k]),
        ),
    );
    DbView { paths: paths2, files: files2, global: global2 }
}

/// The ranges of a file's entries, in order.
pub open spec fn ranges_of(entries: Seq<(Range, EntryKind)>) -> Seq<Range> {
    Seq::new(entries.len(), |i: int| entries[i].0)
}

/// The binary search over the location index, as the executable code walks
/// it: halve on a strict miss, answer on `Equal`.
pub open spec fn bsearch(ranges: Seq<Range>, p: Position, lo: int, hi: int) -> Option<int>
    decreases hi - lo,
{
    if lo < 0 || hi > ranges.len() || lo >= hi {
        None
    } else {
        let mid = lo + (hi - lo) / 2;
        match range_point_cmp(ranges[mid], p) {
            PointCmp::Less => bsearch(ranges, p, mid + 1, hi),
            PointCmp::Greater => bsearch(ranges, p, lo, mid),
            PointCmp::Equal => Some(mid),
        }
    }
}

pub proof fn lemma_bsearch_in_range(ranges: Seq<Range>, p: Position, lo: int, hi: int)
    ensures
        bsearch(ranges, p, lo, hi) matches Some(i) ==> lo <= i < hi && range_point_cmp(
            ranges[i],
            p,
        ) == PointCmp::Equal,
    decreases hi - lo,
{
    if !(lo < 0 || hi > ranges.len() || lo >= hi) {
        let mid = lo + (hi - lo) / 2;
        lemma_bsearch_in_range(ranges, p, mid + 1, hi);
        lemma_bsearch_in_range(ranges, p, lo, mid);
    }
}

/// Registering a file's names always wins: directly after an update, every
/// name the new index declares resolves to this very file and to its fresh
/// declaration range, whoever held the name before.  Re-updating the other
/// of two files that declare the same name therefore flips resolution to it.
pub proof fn lemma_last_writer_wins(v: DbView, path: Seq<char>, fv: FileView, name: Seq<char>)
    requires
        fv.decls.contains_key(name),
    ensures
        spec_update(v, path, fv).global.contains_key(name),
        spec_update(v, path, fv).global[name] == (spec_fileid(v.paths, path), fv.decls[name]),
{
}

/// Updating a path twice with the same tree leaves the database exactly as
/// one update leaves it, so every go-to-definition query answers the same.
pub proof fn lemma_update_idempotent(v: DbView, path: Seq<char>, fv: FileView)
    requires
        forall|i: int, j: int| 0 <= i < j < v.paths.len() ==> v.paths[i] != v.paths[j],
        v.paths.len() == v.files.len(),
    ensures
        spec_update(spec_update(v, path, fv), path, fv) == spec_update(v, path, fv),
        forall|doc: Seq<char>, pos: Position|
            goto_spec(spec_update(spec_update(v, path, fv), path, fv), doc, pos) == goto_spec(
                spec_update(v, path, fv),
                doc,
                pos,
            ),
{
    let v1 = spec_update(v, path, fv);
    let fid = spec_fileid(v.paths, path);
    if contains_path(v.paths, path) {
        assert(0 <= fid < v1.paths.len() && v1.paths[fid] == path);
    } else {
        assert(v1.paths[v.paths.len() as int] == path);
        assert(contains_path(v1.paths, path));
        assert forall|i: int, j: int| 0 <= i < j < v1.paths.len() implies v1.paths[i]
            != v1.paths[j] by {
            if j == v1.paths.len() - 1 {
                if v1.paths[i] == v1.paths[j] {
                    assert(v.paths[i] == path);
                    assert(contains_path(v.paths, path));
                }
            }
        }
    }
    assert(contains_path(v1.paths, path));
    assert(path_id(v1.paths, path) == fid) by {
        let i = path_id(v1.paths, path);
        assert(0 <= i < v1.paths.len() && v1.paths[i] == path);
        assert(v1.paths[fid] == path);
    }
    let v2 = spec_update(v1, path, fv);
    assert(v2.paths == v1.paths);
    assert(v1.files[spec_fileid(v1.paths, path)] == fv);
    assert(v2.files =~= v1.files);
    assert(v2.global =~= v1.global) by {
        assert forall|kk: Seq<char>| #![auto] v2.global.contains_key(kk)
            <==> v1.global.contains_key(kk) by {}
        assert forall|kk: Seq<char>| #[trigger] v2.global.contains_key(kk)
            && v1.global.contains_key(kk) implies v2.global[kk] == v1.global[kk] by {}
    }
    assert(v2 == v1);
}

/// What `goto_definition` returns, over the database view: the resolved
/// file's path and the resolved range.  A module-name occurrence resolves
/// through the global table, any other identifier to its own location;
/// every lookup miss is an empty result.
pub open spec fn goto_spec(v: DbView, doc: Seq<char>, pos: Position) -> Option<(Seq<char>, Range)> {
    if !contains_path(v.paths, doc) {
        None
    } else {
        let fid = path_id(v.paths, doc);
        let fv = v.files[fid];
        match bsearch(ranges_of(fv.entries), pos, 0, fv.entries.len() as int) {
            None => None,
            Some(i) => match fv.entries[i].1 {
                EntryKind::Module { name } => if v.global.contains_key(name) {
                    Some((v.paths[v.global[name].0], v.global[name].1))
                } else {
                    None
                },
                EntryKind::Identifier => Some((doc, fv.entries[i].0)),
            },
        }
    }
}

} // verus!
