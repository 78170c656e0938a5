use vstd::prelude::*;

pub mod assoc;
pub mod model;
pub mod catalog;
pub mod position;
pub mod semantic;
pub mod store;
pub mod syntax;

verus! {

/// An arena index with a generation tag, valid only against the item store
/// that produced it.
pub type ItemId = generational_arena::Index;

/// A small opaque integer naming one file, assigned the first time a path is
/// seen and stable for the lifetime of a `Db`; never recycled.
#[derive(Debug, Clone, Copy, PartialEq, Eq, PartialOrd, Ord, Hash, Structural)]
pub struct FileId(usize);

impl FileId {
    /// The integer behind the id.
    pub closed spec fn id(self) -> int {
        self.0 as int
    }
}

/// The per-file index: the line table, the arena owning the file's semantic
/// items, the position-sorted location index, and the names this file
/// declares.  Once built it is immutable until the next `update` for the
/// same path replaces it wholesale.
pub struct DataPerFile {
    pub line_index: position::LineIndex,
    items: store::Store,
    location_map: Vec<(position::Range, ItemId)>,
    global_items: Vec<(String, ItemId)>,
}

impl DataPerFile {
    /// The line table, as a value.
    pub closed spec fn lines(self) -> position::LineIndex {
        self.line_index
    }

    /// The items the arena holds.
    pub closed spec fn store(self) -> Map<ItemId, semantic::Item> {
        store::store_contents(self.items)
    }

    /// The location index entries: ranges with the id of the item found
    /// there.
    pub closed spec fn entries(self) -> Seq<(position::Range, ItemId)> {
        self.location_map@
    }

    /// The names this file declares, each with its declaration item's id.
    pub closed spec fn decl_ids(self) -> Seq<(String, ItemId)> {
        self.global_items@
    }

    /// Every location entry is sorted strictly by begin position and holds a
    /// live id whose item carries exactly that range and is never a module
    /// instance; declared names are unique and name live module identifiers.
    pub open spec fn wf(self) -> bool {
        &&& model::begins_sorted(self.entries())
        &&& forall|i: int|
            0 <= i < self.entries().len() ==> {
                &&& self.store().contains_key((#[trigger] self.entries()[i]).1)
                &&& self.store()[self.entries()[i].1].spec_location() == self.entries()[i].0
                &&& !(self.store()[self.entries()[i].1] is ModuleInstance)
            }
        &&& assoc::keys_unique(self.decl_ids())
        &&& forall|k: Seq<char>|
            #[trigger] assoc::assoc_map(self.decl_ids()).contains_key(k) ==> {
                &&& self.store().contains_key(assoc::assoc_map(self.decl_ids())[k])
                &&& self.store()[assoc::assoc_map(self.decl_ids())[k]] is ModuleIdentifier
            }
    }

    /// The observable content of this index.
    pub closed spec fn abs(self) -> model::FileView {
        model::FileView {
            entries: Seq::new(
                self.entries().len(),
                |i: int| (self.entries()[i].0, model::kind_of(self.store()[self.entries()[i].1])),
            ),
            decls: Map::new(
                |k: Seq<char>| assoc::assoc_map(self.decl_ids()).contains_key(k),
                |k: Seq<char>| self.store()[assoc::assoc_map(self.decl_ids())[k]].spec_location(),
            ),
        }
    }

    /// How many entries the location index holds.
    pub fn entry_count(&self) -> (n: usize)
        ensures
            n == self.entries().len(),
    {
        self.location_map.len()
    }

    /// The range of one location-index entry, in position order.
    pub fn entry_range(&self, i: usize) -> (r: Option<position::Range>)
        ensures
            match r {
                Some(rg) => i < self.entries().len() && rg == self.entries()[i as int].0,
                None => i >= self.entries().len(),
            },
    {
        if i < self.location_map.len() {
            Some(self.location_map[i].0)
        } else {
            None
        }
    }

    /// The range one token covers: its position, extended by its length.
    fn location_of_token(&self, locate: &syntax::Locate) -> (r: Result<position::Range, IndexError>)
        requires
            locate.wf(),
        ensures
            r == model::token_range(self.line_index@, *locate),
    {
        let begin = match self.line_index.locate_to_position(locate) {
            Ok(b) => b,
            Err(e) => {
                return Err(e);
            },
        };
        Ok(
            position::Range {
                begin,
                end: position::Position { row: begin.row, col: begin.col + locate.len },
            },
        )
    }

    /// Store one item and enter its range into the location index at the
    /// sorted point; fails with `DuplicateLocation` when an entry already
    /// begins at the same position.
    fn insert_semantic(&mut self, semantic: semantic::Item) -> (r: Result<ItemId, IndexError>)
        requires
            old(self).wf(),
            !(semantic is ModuleInstance),
        ensures
            final(self).wf(),
            final(self).line_index == old(self).line_index,
            final(self).decl_ids() == old(self).decl_ids(),
            match r {
                Ok(id) => {
                    &&& model::abs_insert(
                        old(self).abs().entries,
                        semantic.spec_location(),
                        model::kind_of(semantic),
                    ) == Ok::<_, IndexError>(final(self).abs().entries)
                    &&& final(self).abs().decls == old(self).abs().decls
                    &&& !old(self).store().contains_key(id)
                    &&& final(self).store() == old(self).store().insert(id, semantic)
                },
                Err(e) => {
                    &&& e == IndexError::DuplicateLocation
                    &&& *final(self) == *old(self)
                    &&& model::abs_insert(
                        old(self).abs().entries,
                        semantic.spec_location(),
                        model::kind_of(semantic),
                    ) == Err::<Seq<(position::Range, model::EntryKind)>, _>(e)
                },
            },
    {
        let location = *semantic.location();
        let begin = location.begin;
        let mut lo: usize = 0;
        let mut hi: usize = self.location_map.len();
        while lo < hi
            invariant
                lo <= hi <= self.location_map@.len(),
                model::begins_sorted(self.location_map@),
                forall|j: int| 0 <= j < lo ==> position::pos_lt(self.location_map@[j].0.begin, begin),
                forall|j: int|
                    hi <= j < self.location_map@.len() ==> !position::pos_lt(
                        self.location_map@[j].0.begin,
                        begin,
                    ),
            decreases hi - lo,
        {
            let mid = lo + (hi - lo) / 2;
            let b = self.location_map[mid].0.begin;
            if b.row < begin.row || (b.row == begin.row && b.col < begin.col) {
                proof {
                    assert forall|j: int| 0 <= j < mid + 1 implies position::pos_lt(
                        self.location_map@[j].0.begin,
                        begin,
                    ) by {
                        if lo <= j && j < mid {
                            assert(position::pos_lt(
                                self.location_map@[j].0.begin,
                                self.location_map@[mid as int].0.begin,
                            ));
                        }
                    }
                }
                lo = mid + 1;
            } else {
                proof {
                    assert forall|j: int|
                        mid <= j < self.location_map@.len() implies !position::pos_lt(
                        self.location_map@[j].0.begin,
                        begin,
                    ) by {
                        if j > mid {
                            assert(position::pos_lt(
                                self.location_map@[mid as int].0.begin,
                                self.location_map@[j].0.begin,
                            ));
                        }
                    }
                }
                hi = mid;
            }
        }
        let ghost centries = self.location_map@;
        let ghost aentries = old(self).abs().entries;
        proof {
            assert(forall|j: int|
                0 <= j < aentries.len() ==> (#[trigger] aentries[j]).0 == centries[j].0);
        }
        if lo < self.location_map.len() {
            let e_begin = self.location_map[lo].0.begin;
            if e_begin == begin {
                proof {
                    assert(aentries[lo as int].0.begin == begin);
                    assert(model::has_begin(aentries, begin));
                }
                return Err(IndexError::DuplicateLocation);
            }
        }
        proof {
            // no entry begins at `begin`: those before lo are strictly less,
            // the one at lo differs, and later ones are above it in the order
            assert forall|i: int| 0 <= i < aentries.len() implies aentries[i].0.begin != begin by {
                if i >= lo {
                    if centries[i].0.begin == begin {
                        if i > lo {
                            assert(position::pos_lt(centries[lo as int].0.begin, centries[i].0.begin));
                        }
                    }
                }
            }
            assert(!model::has_begin(aentries, begin));
            model::lemma_insert_pos_unique(aentries, begin, lo as int);
            model::lemma_insert_pos_unique(centries, begin, lo as int);
        }
        let id = store::arena_insert(&mut self.items, semantic);
        self.location_map.insert(lo, (location, id));
        proof {
            let st = self.store();
            let ost = old(self).store();
            assert(st == ost.insert(id, semantic));
            // the new entry list is the old one with the new pair at `lo`
            assert(self.entries() =~= centries.insert(lo as int, (location, id)));
            assert forall|i: int, j: int| 0 <= i < j < self.entries().len() implies position::pos_lt(
                self.entries()[i].0.begin,
                self.entries()[j].0.begin,
            ) by {
                let a = if i < lo { i } else { i - 1 };
                let b = if j <= lo { j } else { j - 1 };
                if i == lo {
                    assert(self.entries()[j] == centries[j - 1]);
                } else if j == lo {
                    assert(self.entries()[i] == centries[i]);
                } else {
                    assert(self.entries()[i] == centries[a]);
                    assert(self.entries()[j] == centries[b]);
                }
            }
            assert forall|i: int| 0 <= i < self.entries().len() implies {
                &&& st.contains_key((#[trigger] self.entries()[i]).1)
                &&& st[self.entries()[i].1].spec_location() == self.entries()[i].0
                &&& !(st[self.entries()[i].1] is ModuleInstance)
            } by {
                if i != lo {
                    let a = if i < lo { i } else { i - 1 };
                    assert(self.entries()[i] == centries[a]);
                    assert(ost.contains_key(centries[a].1));
                }
            }
            assert(final(self).abs().entries =~= aentries.insert(
                lo as int,
                (location, model::kind_of(semantic)),
            )) by {
                assert forall|i: int| 0 <= i < self.entries().len() implies self.abs().entries[i]
                    == aentries.insert(lo as int, (location, model::kind_of(semantic)))[i] by {
                    if i != lo {
                        let a = if i < lo { i } else { i - 1 };
                        assert(self.entries()[i] == centries[a]);
                        assert(ost.contains_key(centries[a].1));
                        assert(aentries[a] == (centries[a].0, model::kind_of(ost[centries[a].1])));
                    }
                }
            }
            assert(final(self).abs().decls =~= old(self).abs().decls) by {
                assert forall|k: Seq<char>|
                    assoc::assoc_map(self.decl_ids()).contains_key(k) implies self.abs().decls[k]
                    == old(self).abs().decls[k] by {
                    assoc::lemma_assoc_contains(self.decl_ids(), k);
                    let i = choose|i: int|
                        0 <= i < self.decl_ids().len() && self.decl_ids()[i].0@ == k;
                    assoc::lemma_assoc_value(self.decl_ids(), i);
                    assert(ost.contains_key(self.decl_ids()[i].1));
                }
            }
        }
        Ok(id)
    }

    /// Index one module declaration: insert a ModuleIdentifier item spanning
    /// keyword to end-of-module, walk the body items, and register the
    /// declared name as this file's contribution.
    fn process_module_declaration(&mut self, decl: &syntax::ModuleDecl) -> (r: Result<
        (),
        IndexError,
    >)
        requires
            old(self).wf(),
            decl.wf(),
        ensures
            final(self).wf(),
            final(self).line_index == old(self).line_index,
            match r {
                Ok(()) => model::abs_module(old(self).line_index@, old(self).abs(), *decl)
                    == Ok::<_, IndexError>(final(self).abs()),
                Err(e) => model::abs_module(old(self).line_index@, old(self).abs(), *decl)
                    == Err::<model::FileView, _>(e),
            },
    {
        let ghost starts = self.line_index@;
        let ghost fv0 = self.abs();
        let keyword_begin = match self.line_index.locate_to_position(&decl.keyword) {
            Ok(p) => p,
            Err(e) => {
                return Err(e);
            },
        };
        let end_begin = match self.line_index.locate_to_position(&decl.end) {
            Ok(p) => p,
            Err(e) => {
                return Err(e);
            },
        };
        let location = position::Range { begin: keyword_begin, end: end_begin };
        proof {
            assert(model::decl_range(starts, decl.keyword, decl.end) == Ok::<_, IndexError>(
                location,
            ));
        }
        let module_id = match self.insert_semantic(
            semantic::Item::ModuleIdentifier { module_name: decl.name.clone(), location },
        ) {
            Ok(id) => id,
            Err(e) => {
                return Err(e);
            },
        };
        let ghost en1 = self.abs().entries;
        proof {
            assert(model::abs_insert(fv0.entries, location, model::EntryKind::Module {
                name: decl.name@ }) == Ok::<_, IndexError>(en1));
        }
        let mut k: usize = 0;
        while k < decl.items.len()
            invariant
                self.wf(),
                decl.wf(),
                k <= decl.items@.len(),
                self.line_index == old(self).line_index,
                starts == self.line_index@,
                fv0 == old(self).abs(),
                model::decl_range(starts, decl.keyword, decl.end) == Ok::<_, IndexError>(location),
                model::abs_insert(fv0.entries, location, model::EntryKind::Module {
                    name: decl.name@ }) == Ok::<_, IndexError>(en1),
                self.store().contains_key(module_id),
                self.store()[module_id].spec_location() == location,
                self.store()[module_id] is ModuleIdentifier,
                model::abs_body(starts, en1, decl.items@.take(k as int)) == Ok::<_, IndexError>(
                    self.abs().entries,
                ),
                self.abs().decls == fv0.decls,
            decreases decl.items@.len() - k,
        {
            let ghost en_cur = self.abs().entries;
            let item = &decl.items[k];
            proof {
                assert(decl.items@[k as int].wf());
            }
            match item {
                syntax::BodyItem::Instantiation(inst) => {
                    let module_range = match self.location_of_token(&inst.module_locate) {
                        Ok(rg) => rg,
                        Err(e) => {
                            proof {
                                model::lemma_abs_body_step(starts, en1, decl.items@, k as int);
                                model::lemma_abs_body_err_persists(
                                    starts,
                                    en1,
                                    decl.items@,
                                    k as int + 1,
                                );
                            }
                            return Err(e);
                        },
                    };
                    let type_id = match self.insert_semantic(
                        semantic::Item::ModuleIdentifier {
                            module_name: inst.module_name.clone(),
                            location: module_range,
                        },
                    ) {
                        Ok(id) => id,
                        Err(e) => {
                            proof {
                                model::lemma_abs_body_step(starts, en1, decl.items@, k as int);
                                model::lemma_abs_body_err_persists(
                                    starts,
                                    en1,
                                    decl.items@,
                                    k as int + 1,
                                );
                            }
                            return Err(e);
                        },
                    };
                    let instance_range = match self.location_of_token(&inst.instance_locate) {
                        Ok(rg) => rg,
                        Err(e) => {
                            proof {
                                model::lemma_abs_body_step(starts, en1, decl.items@, k as int);
                                model::lemma_abs_body_err_persists(
                                    starts,
                                    en1,
                                    decl.items@,
                                    k as int + 1,
                                );
                            }
                            return Err(e);
                        },
                    };
                    let instance_id = match self.insert_semantic(
                        semantic::Item::UnknownIdentifier {
                            name: inst.instance_name.clone(),
                            location: instance_range,
                        },
                    ) {
                        Ok(id) => id,
                        Err(e) => {
                            proof {
                                model::lemma_abs_body_step(starts, en1, decl.items@, k as int);
                                model::lemma_abs_body_err_persists(
                                    starts,
                                    en1,
                                    decl.items@,
                                    k as int + 1,
                                );
                            }
                            return Err(e);
                        },
                    };
                    let ghost before = *self;
                    let span = position::Range {
                        begin: module_range.begin,
                        end: instance_range.end,
                    };
                    let _ = store::arena_insert(
                        &mut self.items,
                        semantic::Item::ModuleInstance {
                            module_name: type_id,
                            instance_name: instance_id,
                            parameters: Vec::new(),
                            ports: Vec::new(),
                            location: span,
                        },
                    );
                    proof {
                        // the instance item lives only in the arena; nothing
                        // observable changes
                        assert forall|i: int| 0 <= i < self.entries().len() implies {
                            &&& self.store().contains_key((#[trigger] self.entries()[i]).1)
                            &&& self.store()[self.entries()[i].1].spec_location()
                                == self.entries()[i].0
                            &&& !(self.store()[self.entries()[i].1] is ModuleInstance)
                        } by {
                            assert(before.store().contains_key(before.entries()[i].1));
                        }
                        assert forall|kk: Seq<char>|
                            #[trigger] assoc::assoc_map(self.decl_ids()).contains_key(kk) implies {
                            &&& self.store().contains_key(assoc::assoc_map(self.decl_ids())[kk])
                            &&& self.store()[assoc::assoc_map(self.decl_ids())[kk]]
                                is ModuleIdentifier
                        } by {
                            assert(before.store().contains_key(
                                assoc::assoc_map(before.decl_ids())[kk],
                            ));
                        }
                        assert(self.abs().entries =~= before.abs().entries) by {
                            assert forall|i: int| 0 <= i < self.entries().len() implies self.abs().entries[i]
                                == before.abs().entries[i] by {
                                assert(before.store().contains_key(before.entries()[i].1));
                            }
                        }
                        assert(self.abs().decls =~= before.abs().decls) by {
                            assert forall|kk: Seq<char>|
                                assoc::assoc_map(self.decl_ids()).contains_key(kk) implies self.abs().decls[kk]
                                == before.abs().decls[kk] by {
                                assert(before.store().contains_key(
                                    assoc::assoc_map(before.decl_ids())[kk],
                                ));
                            }
                        }
                        model::lemma_abs_body_step(starts, en1, decl.items@, k as int);
                        assert(model::abs_body_item(starts, en_cur, decl.items@[k as int])
                            == model::abs_instantiation(starts, en_cur, *inst));
                        assert(model::abs_body(starts, en1, decl.items@.take(k as int + 1))
                            == Ok::<_, IndexError>(self.abs().entries));
                    }
                },
                syntax::BodyItem::ModuleItem => {
                    proof {
                        model::lemma_abs_body_step(starts, en1, decl.items@, k as int);
                    }
                },
                _ => {
                    proof {
                        model::lemma_abs_body_step(starts, en1, decl.items@, k as int);
                        model::lemma_abs_body_err_persists(starts, en1, decl.items@, k as int + 1);
                    }
                    return Err(IndexError::UnsupportedConstruct);
                },
            }
            k += 1;
        }
        proof {
            assert(decl.items@.take(decl.items@.len() as int) =~= decl.items@);
        }
        let ghost before = *self;
        assoc::assoc_set(&mut self.global_items, decl.name.clone(), module_id);
        proof {
            assert(assoc::assoc_map(self.decl_ids()) == assoc::assoc_map(before.decl_ids()).insert(
                decl.name@,
                module_id,
            ));
            assert forall|kk: Seq<char>|
                #[trigger] assoc::assoc_map(self.decl_ids()).contains_key(kk) implies {
                &&& self.store().contains_key(assoc::assoc_map(self.decl_ids())[kk])
                &&& self.store()[assoc::assoc_map(self.decl_ids())[kk]] is ModuleIdentifier
            } by {
                if kk != decl.name@ {
                    assert(assoc::assoc_map(before.decl_ids()).contains_key(kk));
                }
            }
            assert(self.abs().decls =~= fv0.decls.insert(decl.name@, location)) by {
                assert forall|kk: Seq<char>|
                    assoc::assoc_map(self.decl_ids()).contains_key(kk) implies self.abs().decls[kk]
                    == fv0.decls.insert(decl.name@, location)[kk] by {
                    if kk != decl.name@ {
                        assert(assoc::assoc_map(before.decl_ids()).contains_key(kk));
                        assert(before.abs().decls[kk] == fv0.decls[kk]);
                    }
                }
            }
            assert(final(self).abs() =~= (model::FileView {
                entries: self.abs().entries,
                decls: fv0.decls.insert(decl.name@, location),
            }));
        }
        Ok(())
    }

    /// Build a fresh per-file index from one file's tree: the line table
    /// first, then every top-level description in order.  The first error
    /// abandons the build and is surfaced; the caller keeps its previous
    /// index for the file.
    pub fn new(tree: &syntax::SyntaxTree) -> (r: Result<DataPerFile, IndexError>)
        requires
            tree.wf(),
        ensures
            match r {
                Ok(d) => {
                    &&& d.wf()
                    &&& d.lines().wf()
                    &&& d.lines()@ == position::line_starts(tree.newlines@)
                    &&& model::build_view(*tree) == Ok::<_, IndexError>(d.abs())
                },
                Err(e) => model::build_view(*tree) == Err::<model::FileView, _>(e),
            },
    {
        let line_index = position::LineIndex::new(tree);
        let mut ret = DataPerFile {
            line_index,
            items: store::arena_new(),
            location_map: Vec::new(),
            global_items: Vec::new(),
        };
        let ghost starts = position::line_starts(tree.newlines@);
        proof {
            assert(ret.abs().entries =~= model::FileView::empty().entries);
            assert(ret.abs().decls =~= model::FileView::empty().decls);
            assert(ret.abs() =~= model::FileView::empty());
            assert(tree.descriptions@.take(0) =~= Seq::<syntax::Description>::empty());
        }
        let mut k: usize = 0;
        while k < tree.descriptions.len()
            invariant
                tree.wf(),
                ret.wf(),
                k <= tree.descriptions@.len(),
                ret.line_index@ == starts,
                ret.line_index.wf(),
                starts == position::line_starts(tree.newlines@),
                model::abs_descriptions(starts, model::FileView::empty(), tree.descriptions@.take(
                    k as int)) == Ok::<_, IndexError>(ret.abs()),
            decreases tree.descriptions@.len() - k,
        {
            proof {
                assert(tree.descriptions@[k as int].wf());
            }
            match &tree.descriptions[k] {
                syntax::Description::Module(m) => {
                    match m {
                        syntax::ModuleDeclaration::Nonansi(decl) => {
                            match ret.process_module_declaration(decl) {
                                Ok(()) => {
                                    proof {
                                        model::lemma_abs_descriptions_step(
                                            starts,
                                            model::FileView::empty(),
                                            tree.descriptions@,
                                            k as int,
                                        );
                                    }
                                },
                                Err(e) => {
                                    proof {
                                        model::lemma_abs_descriptions_step(
                                            starts,
                                            model::FileView::empty(),
                                            tree.descriptions@,
                                            k as int,
                                        );
                                        model::lemma_abs_descriptions_err_persists(
                                            starts,
                                            model::FileView::empty(),
                                            tree.descriptions@,
                                            k as int + 1,
                                        );
                                    }
                                    return Err(e);
                                },
                            }
                        },
                        syntax::ModuleDeclaration::Ansi(decl) => {
                            match ret.process_module_declaration(decl) {
                                Ok(()) => {
                                    proof {
                                        model::lemma_abs_descriptions_step(
                                            starts,
                                            model::FileView::empty(),
                                            tree.descriptions@,
                                            k as int,
                                        );
                                    }
                                },
                                Err(e) => {
                                    proof {
                                        model::lemma_abs_descriptions_step(
                                            starts,
                                            model::FileView::empty(),
                                            tree.descriptions@,
                                            k as int,
                                        );
                                        model::lemma_abs_descriptions_err_persists(
                                            starts,
                                            model::FileView::empty(),
                                            tree.descriptions@,
                                            k as int + 1,
                                        );
                                    }
                                    return Err(e);
                                },
                            }
                        },
                        _ => {
                            proof {
                                model::lemma_abs_descriptions_step(
                                    starts,
                                    model::FileView::empty(),
                                    tree.descriptions@,
                                    k as int,
                                );
                                model::lemma_abs_descriptions_err_persists(
                                    starts,
                                    model::FileView::empty(),
                                    tree.descriptions@,
                                    k as int + 1,
                                );
                            }
                            return Err(IndexError::UnsupportedConstruct);
                        },
                    }
                },
                syntax::Description::Other => {
                    proof {
                        model::lemma_abs_descriptions_step(
                            starts,
                            model::FileView::empty(),
                            tree.descriptions@,
                            k as int,
                        );
                    }
                },
            }
            k += 1;
        }
        proof {
            assert(tree.descriptions@.take(tree.descriptions@.len() as int) =~= tree.descriptions@);
        }
        Ok(ret)
    }
}

/// The database: the path catalog, one per-file index per known file (the
/// vector index is the file id), and the global symbol table.
pub struct Db {
    files: catalog::Catalog,
    data: Vec<DataPerFile>,
    global_items: Vec<(String, (FileId, ItemId))>,
    paths: Ghost<Seq<Seq<char>>>,
}

impl View for Db {
    type V = model::DbView;

    /// The observable content: each file id's path, each file's index, and
    /// the global table as name to declaring file and declaration range.
    closed spec fn view(&self) -> model::DbView {
        model::DbView {
            paths: self.paths@,
            files: Seq::new(self.data@.len(), |i: int| self.data@[i].abs()),
            global: Map::new(
                |k: Seq<char>| assoc::assoc_map(self.global_items@).contains_key(k),
                |k: Seq<char>|
                    {
                        let (fid, iid) = assoc::assoc_map(self.global_items@)[k];
                        (fid.id(), self.data@[fid.id()].store()[iid].spec_location())
                    },
            ),
        }
    }
}

impl Db {
    /// The path catalog is a bijection onto the ids seen so far.
    pub closed spec fn cat_wf(self) -> bool {
        &&& forall|i: int, j: int|
            0 <= i < j < self.paths@.len() ==> self.paths@[i] != self.paths@[j]
        &&& forall|i: int|
            0 <= i < self.paths@.len() ==> catalog::catalog_pairs(self.files).contains_key(
                #[trigger] self.paths@[i],
            ) && catalog::catalog_pairs(self.files)[self.paths@[i]].id() == i
        &&& forall|k: Seq<char>|
            #[trigger] catalog::catalog_pairs(self.files).contains_key(k)
                ==> model::contains_path(self.paths@, k)
    }

    /// The per-file indexes are well formed and every global entry names a
    /// module that its mapped file currently declares.
    pub closed spec fn tables_wf(self) -> bool {
        &&& forall|i: int| 0 <= i < self.data@.len() ==> (#[trigger] self.data@[i]).wf()
        &&& assoc::keys_unique(self.global_items@)
        &&& forall|k: Seq<char>|
            #[trigger] assoc::assoc_map(self.global_items@).contains_key(k) ==> {
                let (fid, iid) = assoc::assoc_map(self.global_items@)[k];
                &&& 0 <= fid.id() < self.data@.len()
                &&& assoc::assoc_map(self.data@[fid.id()].decl_ids()).contains_key(k)
                &&& assoc::assoc_map(self.data@[fid.id()].decl_ids())[k] == iid
            }
    }

    /// The structural invariant: ids are dense and bijective with paths, the
    /// per-file indexes are well formed, and every global entry names a
    /// module that its mapped file currently declares.
    pub closed spec fn wf(self) -> bool {
        &&& self.paths@.len() == self.data@.len()
        &&& self.cat_wf()
        &&& self.tables_wf()
    }

    /// A catalog entry's id points back at its own path.
    proof fn lemma_path_of_id(self, k: Seq<char>, fid: FileId)
        requires
            self.wf(),
            catalog::catalog_pairs(self.files).contains_key(k),
            catalog::catalog_pairs(self.files)[k] == fid,
        ensures
            0 <= fid.id() < self.paths@.len(),
            self.paths@[fid.id()] == k,
    {
        let j = choose|j: int| 0 <= j < self.paths@.len() && self.paths@[j] == k;
        assert(catalog::catalog_pairs(self.files)[self.paths@[j]].id() == j);
    }

    /// Distinct paths pin `path_id` down.
    proof fn lemma_path_id_at(self, j: int)
        requires
            self.wf(),
            0 <= j < self.paths@.len(),
        ensures
            model::contains_path(self.paths@, self.paths@[j]),
            model::path_id(self.paths@, self.paths@[j]) == j,
    {
        assert(model::contains_path(self.paths@, self.paths@[j]));
        let i = model::path_id(self.paths@, self.paths@[j]);
        assert(0 <= i < self.paths@.len() && self.paths@[i] == self.paths@[j]);
    }

    /// Resolve a path that is already known.
    fn get_fileid(&self, path: &String) -> (r: Option<FileId>)
        requires
            self.wf(),
        ensures
            match r {
                Some(fid) => {
                    &&& model::contains_path(self@.paths, path@)
                    &&& fid.id() == model::path_id(self@.paths, path@)
                    &&& 0 <= fid.id() < self@.files.len()
                },
                None => !model::contains_path(self@.paths, path@),
            },
    {
        let r = catalog::catalog_get_by_path(&self.files, path);
        proof {
            match r {
                Some(fid) => {
                    self.lemma_path_of_id(path@, fid);
                    self.lemma_path_id_at(fid.id());
                },
                None => {
                    if model::contains_path(self.paths@, path@) {
                        let j = choose|j: int|
                            0 <= j < self.paths@.len() && self.paths@[j] == path@;
                        assert(catalog::catalog_pairs(self.files).contains_key(self.paths@[j]));
                    }
                },
            }
        }
        r
    }

    /// Resolve a path to its file id, assigning the next unused integer the
    /// first time the path is seen.
    fn path_to_fileid(&mut self, path: String) -> (fid: FileId)
        requires
            old(self).wf(),
        ensures
            final(self).cat_wf(),
            final(self).data == old(self).data,
            final(self).global_items == old(self).global_items,
            if model::contains_path(old(self).paths@, path@) {
                &&& *final(self) == *old(self)
                &&& fid.id() == model::path_id(old(self).paths@, path@)
                &&& 0 <= fid.id() < old(self).paths@.len()
            } else {
                &&& final(self).paths@ == old(self).paths@.push(path@)
                &&& fid.id() == old(self).paths@.len()
            },
    {
        let ghost pth = path@;
        let existing = self.get_fileid(&path);
        match existing {
            Some(id) => id,
            None => {
                let new_file_id = FileId(self.data.len());
                proof {
                    if catalog::catalog_pairs(self.files).contains_key(pth) {
                        let j = choose|j: int|
                            0 <= j < self.paths@.len() && self.paths@[j] == pth;
                    }
                    assert forall|k: Seq<char>|
                        catalog::catalog_pairs(self.files).contains_key(k) implies catalog::catalog_pairs(
                        self.files,
                    )[k] != new_file_id by {
                        let j = choose|j: int| 0 <= j < self.paths@.len() && self.paths@[j] == k;
                        assert(catalog::catalog_pairs(self.files)[self.paths@[j]].id() == j);
                    }
                }
                catalog::catalog_insert(&mut self.files, path, new_file_id);
                proof {
                    self.paths@ = self.paths@.push(pth);
                }
                proof {
                    assert forall|i: int|
                        0 <= i < self.paths@.len() implies catalog::catalog_pairs(
                        self.files,
                    ).contains_key(#[trigger] self.paths@[i]) && catalog::catalog_pairs(
                        self.files,
                    )[self.paths@[i]].id() == i by {
                        if i < self.paths@.len() - 1 {
                            assert(old(self).paths@[i] == self.paths@[i]);
                        }
                    }
                    assert forall|k: Seq<char>|
                        catalog::catalog_pairs(self.files).contains_key(k) implies model::contains_path(
                        self.paths@,
                        k,
                    ) by {
                        if k != pth {
                            let j = choose|j: int|
                                0 <= j < old(self).paths@.len() && old(self).paths@[j] == k;
                            assert(self.paths@[j] == k);
                        } else {
                            assert(self.paths@[self.paths@.len() - 1] == k);
                        }
                    }
                }
                new_file_id
            },
        }
    }

    /// Register every name the file at `idx` declares, mapping each to this
    /// file.  A binding another file held for the same name is overwritten
    /// (last writer wins); every other binding is kept.
    fn register_file_names(&mut self, idx: usize, file_id: FileId)
        requires
            idx < old(self).data@.len(),
            idx == file_id.id(),
            assoc::keys_unique(old(self).global_items@),
            old(self).data@[idx as int].wf(),
        ensures
            final(self).files == old(self).files,
            final(self).data == old(self).data,
            final(self).paths == old(self).paths,
            assoc::keys_unique(final(self).global_items@),
            forall|k: Seq<char>|
                #[trigger] assoc::assoc_map(old(self).data@[idx as int].decl_ids()).contains_key(k)
                    ==> assoc::assoc_map(final(self).global_items@).contains_key(k)
                    && assoc::assoc_map(final(self).global_items@)[k] == (
                    file_id,
                    assoc::assoc_map(old(self).data@[idx as int].decl_ids())[k],
                ),
            forall|k: Seq<char>|
                !assoc::assoc_map(old(self).data@[idx as int].decl_ids()).contains_key(k) ==> {
                    &&& (#[trigger] assoc::assoc_map(final(self).global_items@).contains_key(k)
                        <==> assoc::assoc_map(old(self).global_items@).contains_key(k))
                    &&& (assoc::assoc_map(final(self).global_items@).contains_key(k)
                        ==> assoc::assoc_map(final(self).global_items@)[k] == assoc::assoc_map(
                            old(self).global_items@,
                        )[k])
                },
    {
        let ghost decls = self.data@[idx as int].decl_ids();
        let mut k: usize = 0;
        while k < self.data[idx].global_items.len()
            invariant
                idx < self.data@.len(),
                idx == file_id.id(),
                self.data == old(self).data,
                self.files == old(self).files,
                self.paths == old(self).paths,
                decls == self.data@[idx as int].decl_ids(),
                assoc::keys_unique(decls),
                k <= decls.len(),
                assoc::keys_unique(self.global_items@),
                forall|kk: Seq<char>|
                    #[trigger] assoc::assoc_map(decls.take(k as int)).contains_key(kk)
                        ==> assoc::assoc_map(self.global_items@).contains_key(kk)
                        && assoc::assoc_map(self.global_items@)[kk] == (
                        file_id,
                        assoc::assoc_map(decls)[kk],
                    ),
                forall|kk: Seq<char>|
                    !assoc::assoc_map(decls.take(k as int)).contains_key(kk) ==> {
                        &&& (#[trigger] assoc::assoc_map(self.global_items@).contains_key(kk)
                            <==> assoc::assoc_map(old(self).global_items@).contains_key(kk))
                        &&& (assoc::assoc_map(self.global_items@).contains_key(kk)
                            ==> assoc::assoc_map(self.global_items@)[kk] == assoc::assoc_map(
                                old(self).global_items@,
                            )[kk])
                    },
            decreases decls.len() - k,
        {
            let ghost gpre = self.global_items@;
            let name = self.data[idx].global_items[k].0.clone();
            let iid = self.data[idx].global_items[k].1;
            proof {
                assoc::lemma_assoc_value(decls, k as int);
            }
            assoc::assoc_set(&mut self.global_items, name, (file_id, iid));
            proof {
                assert(decls.take(k as int + 1).drop_last() =~= decls.take(k as int));
                assert(decls.take(k as int + 1).last() == decls[k as int]);
                assert(assoc::assoc_map(decls.take(k as int + 1)) == assoc::assoc_map(
                    decls.take(k as int),
                ).insert(decls[k as int].0@, decls[k as int].1));
                assert forall|kk: Seq<char>|
                    #[trigger] assoc::assoc_map(decls.take(k as int + 1)).contains_key(
                        kk,
                    ) implies assoc::assoc_map(self.global_items@).contains_key(kk)
                    && assoc::assoc_map(self.global_items@)[kk] == (
                    file_id,
                    assoc::assoc_map(decls)[kk],
                ) by {
                    if kk != decls[k as int].0@ {
                        assert(assoc::assoc_map(decls.take(k as int)).contains_key(kk));
                        assert(assoc::assoc_map(gpre).contains_key(kk));
                    }
                }
                assert forall|kk: Seq<char>|
                    !assoc::assoc_map(decls.take(k as int + 1)).contains_key(kk) implies {
                    &&& (assoc::assoc_map(self.global_items@).contains_key(kk)
                        <==> assoc::assoc_map(old(self).global_items@).contains_key(kk))
                    &&& (assoc::assoc_map(self.global_items@).contains_key(kk)
                        ==> assoc::assoc_map(self.global_items@)[kk] == assoc::assoc_map(
                            old(self).global_items@,
                        )[kk])
                } by {
                    assert(!assoc::assoc_map(decls.take(k as int)).contains_key(kk));
                    assert(kk != decls[k as int].0@);
                }
            }
            k += 1;
        }
        proof {
            assert(decls.take(decls.len() as int) =~= decls);
        }
    }
    /// Index one file's tree and swap the result in: resolve or assign the
    /// file id, replace any prior per-file index wholesale, remove every
    /// name the old index had registered, then register the new index's
    /// names.  On an error nothing changes: the file's previous index stays
    /// in place and every other file remains queryable.
    pub fn update(&mut self, path: String, tree: &syntax::SyntaxTree) -> (r: Result<
        FileId,
        IndexError,
    >)
        requires
            old(self).wf(),
            tree.wf(),
        ensures
            final(self).wf(),
            match r {
                Ok(fid) => {
                    &&& model::build_view(*tree) is Ok
                    &&& fid.id() == model::spec_fileid(old(self)@.paths, path@)
                    &&& final(self)@ == model::spec_update(
                        old(self)@,
                        path@,
                        model::build_view(*tree)->Ok_0,
                    )
                },
                Err(e) => {
                    &&& model::build_view(*tree) == Err::<model::FileView, _>(e)
                    &&& *final(self) == *old(self)
                },
            },
    {
        let new_data = match DataPerFile::new(tree) {
            Ok(d) => d,
            Err(e) => {
                return Err(e);
            },
        };
        let ghost fv = new_data.abs();
        let ghost v0 = self@;
        let ghost pth = path@;
        let file_id = self.path_to_fileid(path);
        let idx = file_id.0;
        proof {
            if model::contains_path(v0.paths, pth) {
                assert(idx < self.data@.len());
            } else {
                assert(idx == self.data@.len());
            }
        }
        if idx < self.data.len() {
            let ghost existed_data = self.data@[idx as int];
            let old_data = self.data.remove(idx);
            let ghost g0 = self.global_items@;
            let ghost odecls = old_data.decl_ids();
            proof {
                assert(old_data.wf());
                assoc::lemma_assoc_contains(odecls, pth);
            }
            let mut k: usize = 0;
            while k < old_data.global_items.len()
                invariant
                    odecls == old_data.decl_ids(),
                    assoc::keys_unique(odecls),
                    k <= odecls.len(),
                    assoc::keys_unique(self.global_items@),
                    g0 == old(self).global_items@,
                    idx < old(self).data@.len(),
                    self.data@ == old(self).data@.remove(idx as int),
                    self.files == old(self).files,
                    self.paths == old(self).paths,
                    forall|kk: Seq<char>|
                        #[trigger] assoc::assoc_map(odecls.take(k as int)).contains_key(kk)
                            ==> !assoc::assoc_map(self.global_items@).contains_key(kk),
                    forall|kk: Seq<char>|
                        !assoc::assoc_map(odecls.take(k as int)).contains_key(kk) ==> {
                            &&& (#[trigger] assoc::assoc_map(self.global_items@).contains_key(kk)
                                <==> assoc::assoc_map(g0).contains_key(kk))
                            &&& (assoc::assoc_map(self.global_items@).contains_key(kk)
                                ==> assoc::assoc_map(self.global_items@)[kk] == assoc::assoc_map(
                                    g0,
                                )[kk])
                        },
                decreases odecls.len() - k,
            {
                let ghost gpre = self.global_items@;
                let name = old_data.global_items[k].0.clone();
                assoc::assoc_remove(&mut self.global_items, &name);
                proof {
                    assert(odecls.take(k as int + 1).drop_last() =~= odecls.take(k as int));
                    assert(odecls.take(k as int + 1).last() == odecls[k as int]);
                    assert(assoc::assoc_map(odecls.take(k as int + 1)) == assoc::assoc_map(
                        odecls.take(k as int),
                    ).insert(odecls[k as int].0@, odecls[k as int].1));
                    assert forall|kk: Seq<char>|
                        #[trigger] assoc::assoc_map(odecls.take(k as int + 1)).contains_key(
                            kk,
                        ) implies !assoc::assoc_map(self.global_items@).contains_key(kk) by {
                        if kk != odecls[k as int].0@ {
                            assert(assoc::assoc_map(odecls.take(k as int)).contains_key(kk));
                            assert(!assoc::assoc_map(gpre).contains_key(kk));
                        }
                    }
                    assert forall|kk: Seq<char>|
                        !assoc::assoc_map(odecls.take(k as int + 1)).contains_key(kk) implies {
                        &&& (assoc::assoc_map(self.global_items@).contains_key(kk)
                            <==> assoc::assoc_map(g0).contains_key(kk))
                        &&& (assoc::assoc_map(self.global_items@).contains_key(kk)
                            ==> assoc::assoc_map(self.global_items@)[kk] == assoc::assoc_map(
                                g0,
                            )[kk])
                    } by {
                        assert(!assoc::assoc_map(odecls.take(k as int)).contains_key(kk));
                        assert(kk != odecls[k as int].0@);
                    }
                }
                k += 1;
            }
            proof {
                assert(odecls.take(odecls.len() as int) =~= odecls);
            }
            self.data.insert(idx, new_data);
            let ghost g1 = self.global_items@;
            proof {
                assert(self.data@ =~= old(self).data@.update(idx as int, new_data));
            }
            self.register_file_names(idx, file_id);
            let ghost ndecls = new_data.decl_ids();
            proof {
                assert(old_data == existed_data);
                assert(v0 == old(self)@);
                assert(v0.files[idx as int] == existed_data.abs());
                assert(self.data@ == old(self).data@.update(idx as int, new_data));
                let vf = self@;
                let su = model::spec_update(v0, pth, fv);
                assert(model::contains_path(v0.paths, pth));
                assert(vf.paths == su.paths);
                assert(vf.files =~= su.files) by {
                    assert forall|i: int| 0 <= i < vf.files.len() implies vf.files[i] == su.files[i] by {
                        if i != idx {
                            assert(self.data@[i] == old(self).data@[i]);
                        }
                    }
                }
                assert(vf.global =~= su.global) by {
                    assert forall|kk: Seq<char>| #![auto] vf.global.contains_key(kk)
                        <==> su.global.contains_key(kk) by {
                        let gmap = assoc::assoc_map(self.global_items@);
                        let g0map = assoc::assoc_map(g0);
                        let omap = assoc::assoc_map(odecls);
                        let nmap = assoc::assoc_map(ndecls);
                        if nmap.contains_key(kk) {
                            assert(gmap.contains_key(kk));
                            assert(gmap[kk] == (file_id, nmap[kk]));
                            assert(fv.decls.contains_key(kk));
                            assert(self.data@[file_id.id()] == new_data);
                        } else {
                            assert(!fv.decls.contains_key(kk));
                            assert(gmap.contains_key(kk) <==> assoc::assoc_map(g1).contains_key(
                                kk,
                            ));
                            if gmap.contains_key(kk) {
                                assert(gmap[kk] == assoc::assoc_map(g1)[kk]);
                                assert(assoc::assoc_map(g1)[kk] == g0map[kk]);
                                assert(!omap.contains_key(kk));
                                let (fid2, iid2) = gmap[kk];
                                assert(g0map.contains_key(kk));
                                assert(0 <= fid2.id() < old(self).data@.len());
                                assert(assoc::assoc_map(
                                    old(self).data@[fid2.id()].decl_ids(),
                                ).contains_key(kk));
                                if fid2.id() == idx {
                                    assert(omap.contains_key(kk));
                                }
                                assert(fid2.id() != idx);
                                assert(self.data@[fid2.id()] == old(self).data@[fid2.id()]);
                            }
                            assert(v0.global.contains_key(kk) <==> g0map.contains_key(kk));
                            assert(v0.files[file_id.id()].decls.contains_key(kk)
                                <==> omap.contains_key(kk));
                            if assoc::assoc_map(g1).contains_key(kk) {
                                assert(g0map.contains_key(kk) && !omap.contains_key(kk));
                            }
                            if g0map.contains_key(kk) && !omap.contains_key(kk) {
                                assert(assoc::assoc_map(g1).contains_key(kk));
                            }
                        }
                    }
                    assert forall|kk: Seq<char>| #[trigger] vf.global.contains_key(kk)
                        && su.global.contains_key(kk) implies vf.global[kk] == su.global[kk] by {
                        let gmap = assoc::assoc_map(self.global_items@);
                        let g0map = assoc::assoc_map(g0);
                        let omap = assoc::assoc_map(odecls);
                        let nmap = assoc::assoc_map(ndecls);
                        if nmap.contains_key(kk) {
                            assert(gmap.contains_key(kk));
                            assert(gmap[kk] == (file_id, nmap[kk]));
                            assert(fv.decls.contains_key(kk));
                            assert(self.data@[file_id.id()] == new_data);
                        } else {
                            assert(!fv.decls.contains_key(kk));
                            assert(gmap.contains_key(kk) <==> assoc::assoc_map(g1).contains_key(
                                kk,
                            ));
                            if gmap.contains_key(kk) {
                                assert(gmap[kk] == assoc::assoc_map(g1)[kk]);
                                assert(assoc::assoc_map(g1)[kk] == g0map[kk]);
                                assert(!omap.contains_key(kk));
                                let (fid2, iid2) = gmap[kk];
                                assert(g0map.contains_key(kk));
                                assert(0 <= fid2.id() < old(self).data@.len());
                                assert(assoc::assoc_map(
                                    old(self).data@[fid2.id()].decl_ids(),
                                ).contains_key(kk));
                                if fid2.id() == idx {
                                    assert(omap.contains_key(kk));
                                }
                                assert(fid2.id() != idx);
                                assert(self.data@[fid2.id()] == old(self).data@[fid2.id()]);
                            }
                            assert(v0.global.contains_key(kk) <==> g0map.contains_key(kk));
                            assert(v0.files[file_id.id()].decls.contains_key(kk)
                                <==> omap.contains_key(kk));
                            if assoc::assoc_map(g1).contains_key(kk) {
                                assert(g0map.contains_key(kk) && !omap.contains_key(kk));
                            }
                            if g0map.contains_key(kk) && !omap.contains_key(kk) {
                                assert(assoc::assoc_map(g1).contains_key(kk));
                            }
                        }
                    }
                }
                assert(vf.files == su.files);
                assert(vf.global == su.global);
                assert(self@ == su);
                assert(self.cat_wf());
                assert forall|kk: Seq<char>|
                    #[trigger] assoc::assoc_map(self.global_items@).contains_key(kk) implies {
                    let (fid2, iid2) = assoc::assoc_map(self.global_items@)[kk];
                    &&& 0 <= fid2.id() < self.data@.len()
                    &&& assoc::assoc_map(self.data@[fid2.id()].decl_ids()).contains_key(kk)
                    &&& assoc::assoc_map(self.data@[fid2.id()].decl_ids())[kk] == iid2
                } by {
                        let gmap = assoc::assoc_map(self.global_items@);
                        let g0map = assoc::assoc_map(g0);
                        let omap = assoc::assoc_map(odecls);
                        let nmap = assoc::assoc_map(ndecls);
                        if nmap.contains_key(kk) {
                            assert(gmap.contains_key(kk));
                            assert(gmap[kk] == (file_id, nmap[kk]));
                            assert(fv.decls.contains_key(kk));
                            assert(self.data@[file_id.id()] == new_data);
                        } else {
                            assert(!fv.decls.contains_key(kk));
                            assert(gmap.contains_key(kk) <==> assoc::assoc_map(g1).contains_key(
                                kk,
                            ));
                            if gmap.contains_key(kk) {
                                assert(gmap[kk] == assoc::assoc_map(g1)[kk]);
                                assert(assoc::assoc_map(g1)[kk] == g0map[kk]);
                                assert(!omap.contains_key(kk));
                                let (fid2, iid2) = gmap[kk];
                                assert(g0map.contains_key(kk));
                                assert(0 <= fid2.id() < old(self).data@.len());
                                assert(assoc::assoc_map(
                                    old(self).data@[fid2.id()].decl_ids(),
                                ).contains_key(kk));
                                if fid2.id() == idx {
                                    assert(omap.contains_key(kk));
                                }
                                assert(fid2.id() != idx);
                                assert(self.data@[fid2.id()] == old(self).data@[fid2.id()]);
                            }
                            assert(v0.global.contains_key(kk) <==> g0map.contains_key(kk));
                            assert(v0.files[file_id.id()].decls.contains_key(kk)
                                <==> omap.contains_key(kk));
                            if assoc::assoc_map(g1).contains_key(kk) {
                                assert(g0map.contains_key(kk) && !omap.contains_key(kk));
                            }
                            if g0map.contains_key(kk) && !omap.contains_key(kk) {
                                assert(assoc::assoc_map(g1).contains_key(kk));
                            }
                        }
                }
                assert(self.wf());
            }
            Ok(file_id)
        } else {
            let ghost g0 = self.global_items@;
            self.data.push(new_data);
            self.register_file_names(idx, file_id);
            let ghost ndecls = new_data.decl_ids();
            proof {
                assert(v0 == old(self)@);
                assert(self.data@ == old(self).data@.push(new_data));
                let vf = self@;
                let su = model::spec_update(v0, pth, fv);
                assert(!model::contains_path(v0.paths, pth));
                assert(vf.paths == su.paths);
                assert(vf.files =~= su.files) by {
                    assert forall|i: int| 0 <= i < vf.files.len() implies vf.files[i] == su.files[i] by {
                        if i != idx {
                            assert(self.data@[i] == old(self).data@[i]);
                        }
                    }
                }
                assert(vf.global =~= su.global) by {
                    assert forall|kk: Seq<char>| #![auto] vf.global.contains_key(kk)
                        <==> su.global.contains_key(kk) by {
                        let gmap = assoc::assoc_map(self.global_items@);
                        let g0map = assoc::assoc_map(g0);
                        let nmap = assoc::assoc_map(ndecls);
                        if nmap.contains_key(kk) {
                            assert(gmap.contains_key(kk));
                            assert(gmap[kk] == (file_id, nmap[kk]));
                            assert(fv.decls.contains_key(kk));
                            assert(self.data@[file_id.id()] == new_data);
                        } else {
                            assert(!fv.decls.contains_key(kk));
                            assert(gmap.contains_key(kk) <==> g0map.contains_key(kk));
                            if gmap.contains_key(kk) {
                                assert(gmap[kk] == g0map[kk]);
                                let (fid2, iid2) = gmap[kk];
                                assert(g0map.contains_key(kk));
                                assert(0 <= fid2.id() < old(self).data@.len());
                                assert(assoc::assoc_map(
                                    old(self).data@[fid2.id()].decl_ids(),
                                ).contains_key(kk));
                                assert(self.data@[fid2.id()] == old(self).data@[fid2.id()]);
                            }
                            assert(v0.global.contains_key(kk) <==> g0map.contains_key(kk));
                        }
                    }
                    assert forall|kk: Seq<char>| #[trigger] vf.global.contains_key(kk)
                        && su.global.contains_key(kk) implies vf.global[kk] == su.global[kk] by {
                        let gmap = assoc::assoc_map(self.global_items@);
                        let g0map = assoc::assoc_map(g0);
                        let nmap = assoc::assoc_map(ndecls);
                        if nmap.contains_key(kk) {
                            assert(gmap.contains_key(kk));
                            assert(gmap[kk] == (file_id, nmap[kk]));
                            assert(fv.decls.contains_key(kk));
                            assert(self.data@[file_id.id()] == new_data);
                        } else {
                            assert(!fv.decls.contains_key(kk));
                            assert(gmap.contains_key(kk) <==> g0map.contains_key(kk));
                            if gmap.contains_key(kk) {
                                assert(gmap[kk] == g0map[kk]);
                                let (fid2, iid2) = gmap[kk];
                                assert(g0map.contains_key(kk));
                                assert(0 <= fid2.id() < old(self).data@.len());
                                assert(assoc::assoc_map(
                                    old(self).data@[fid2.id()].decl_ids(),
                                ).contains_key(kk));
                                assert(self.data@[fid2.id()] == old(self).data@[fid2.id()]);
                            }
                            assert(v0.global.contains_key(kk) <==> g0map.contains_key(kk));
                        }
                    }
                }
                assert(vf.files == su.files);
                assert(vf.global == su.global);
                assert(self@ == su);
                assert(self.cat_wf());
                assert forall|kk: Seq<char>|
                    #[trigger] assoc::assoc_map(self.global_items@).contains_key(kk) implies {
                    let (fid2, iid2) = assoc::assoc_map(self.global_items@)[kk];
                    &&& 0 <= fid2.id() < self.data@.len()
                    &&& assoc::assoc_map(self.data@[fid2.id()].decl_ids()).contains_key(kk)
                    &&& assoc::assoc_map(self.data@[fid2.id()].decl_ids())[kk] == iid2
                } by {
                        let gmap = assoc::assoc_map(self.global_items@);
                        let g0map = assoc::assoc_map(g0);
                        let nmap = assoc::assoc_map(ndecls);
                        if nmap.contains_key(kk) {
                            assert(gmap.contains_key(kk));
                            assert(gmap[kk] == (file_id, nmap[kk]));
                            assert(fv.decls.contains_key(kk));
                            assert(self.data@[file_id.id()] == new_data);
                        } else {
                            assert(!fv.decls.contains_key(kk));
                            assert(gmap.contains_key(kk) <==> g0map.contains_key(kk));
                            if gmap.contains_key(kk) {
                                assert(gmap[kk] == g0map[kk]);
                                let (fid2, iid2) = gmap[kk];
                                assert(g0map.contains_key(kk));
                                assert(0 <= fid2.id() < old(self).data@.len());
                                assert(assoc::assoc_map(
                                    old(self).data@[fid2.id()].decl_ids(),
                                ).contains_key(kk));
                                assert(self.data@[fid2.id()] == old(self).data@[fid2.id()]);
                            }
                            assert(v0.global.contains_key(kk) <==> g0map.contains_key(kk));
                        }
                }
                assert(self.wf());
            }
            Ok(file_id)
        }
    }
    /// The read-only view of one file's index, by id; `None` for an id this
    /// database never produced.
    pub fn get_data(&self, file_id: FileId) -> (r: Option<&DataPerFile>)
        ensures
            match r {
                Some(d) => 0 <= file_id.id() < self.file_count() && *d == self.file_at(
                    file_id.id(),
                ),
                None => file_id.id() >= self.file_count(),
            },
    {
        if file_id.0 < self.data.len() {
            Some(&self.data[file_id.0])
        } else {
            None
        }
    }

    /// How many files this database has indexed.
    pub closed spec fn file_count(self) -> int {
        self.data@.len() as int
    }

    /// The per-file index of one id.
    pub closed spec fn file_at(self, i: int) -> DataPerFile {
        self.data@[i]
    }

    /// The item whose range the binary search answers for this position, in
    /// the given file.
    fn get_item_on_location<'a>(&'a self, file_id: FileId, position: &position::Position) -> (r:
        Option<&'a semantic::Item>)
        requires
            self.wf(),
            0 <= file_id.id() < self@.files.len(),
        ensures
            ({
                let fentries = self@.files[file_id.id()].entries;
                let res = model::bsearch(
                    model::ranges_of(fentries),
                    *position,
                    0,
                    fentries.len() as int,
                );
                match r {
                    Some(item) => res matches Some(i) && *item == self.file_at(
                        file_id.id(),
                    ).store()[self.file_at(file_id.id()).entries()[i].1],
                    None => res is None,
                }
            }),
    {
        let d = &self.data[file_id.0];
        let ghost fentries = self@.files[file_id.id()].entries;
        let ghost ranges = model::ranges_of(fentries);
        proof {
            assert(d.abs() == self@.files[file_id.id()]);
            assert forall|i: int| 0 <= i < fentries.len() implies ranges[i] == (
            #[trigger] d.entries()[i]).0 by {}
        }
        let mut lo: usize = 0;
        let mut hi: usize = d.location_map.len();
        while lo < hi
            invariant
                self.wf(),
                0 <= file_id.id() < self@.files.len(),
                *d == self.file_at(file_id.id()),
                lo <= hi <= d.entries().len(),
                fentries == self@.files[file_id.id()].entries,
                ranges == model::ranges_of(fentries),
                fentries.len() == d.entries().len(),
                forall|i: int| 0 <= i < fentries.len() ==> ranges[i] == (#[trigger] d.entries()[i]).0,
                model::bsearch(ranges, *position, 0, fentries.len() as int) == model::bsearch(
                    ranges,
                    *position,
                    lo as int,
                    hi as int,
                ),
            decreases hi - lo,
        {
            let mid = lo + (hi - lo) / 2;
            match d.location_map[mid].0.compare_point(position) {
                position::PointCmp::Less => {
                    lo = mid + 1;
                },
                position::PointCmp::Greater => {
                    hi = mid;
                },
                position::PointCmp::Equal => {
                    let id = d.location_map[mid].1;
                    let item = store::arena_get(&d.items, id);
                    proof {
                        assert(d.store().contains_key(d.entries()[mid as int].1));
                    }
                    match item {
                        Some(it) => {
                            return Some(it);
                        },
                        None => {
                            proof {
                                assert(false);
                            }
                            return None;
                        },
                    }
                },
            }
        }
        None
    }

    /// Resolve a declared module name through the global symbol table to its
    /// declaration item in the declaring file.
    fn get_module<'a>(&'a self, module_name: &String) -> (r: Option<(FileId, &'a semantic::Item)>)
        requires
            self.wf(),
        ensures
            match r {
                Some((fid, item)) => {
                    &&& self@.global.contains_key(module_name@)
                    &&& self@.global[module_name@].0 == fid.id()
                    &&& 0 <= fid.id() < self@.files.len()
                    &&& item.spec_location() == self@.global[module_name@].1
                },
                None => !self@.global.contains_key(module_name@),
            },
    {
        let entry = match assoc::assoc_get(&self.global_items, module_name) {
            Some(e) => e,
            None => {
                return None;
            },
        };
        let (fid, iid) = (entry.0, entry.1);
        let d = &self.data[fid.0];
        proof {
            assert(assoc::assoc_map(d.decl_ids()).contains_key(module_name@));
        }
        match store::arena_get(&d.items, iid) {
            Some(item) => Some((fid, item)),
            None => {
                proof {
                    assert(false);
                }
                None
            },
        }
    }

    /// Answer a go-to-definition request: resolve the path, find the item at
    /// the position, and dispatch on its kind.  Every miss — unknown path,
    /// no item at the position, undeclared module name — is an empty result,
    /// never an error.
    pub fn goto_definition(&self, request_location: position::DocumentPosition) -> (r: Option<
        position::DocumentRange,
    >)
        requires
            self.wf(),
        ensures
            match r {
                Some(dr) => model::goto_spec(
                    self@,
                    request_location.document@,
                    request_location.position,
                ) == Some((dr.document@, dr.range)),
                None => model::goto_spec(
                    self@,
                    request_location.document@,
                    request_location.position,
                ) is None,
            },
    {
        let file_id = match self.get_fileid(&request_location.document) {
            Some(f) => f,
            None => {
                return None;
            },
        };
        let ghost fentries = self@.files[file_id.id()].entries;
        proof {
            model::lemma_bsearch_in_range(
                model::ranges_of(fentries),
                request_location.position,
                0,
                fentries.len() as int,
            );
        }
        let item = match self.get_item_on_location(file_id, &request_location.position) {
            Some(it) => it,
            None => {
                return None;
            },
        };
        let ghost i = model::bsearch(
            model::ranges_of(fentries),
            request_location.position,
            0,
            fentries.len() as int,
        )->Some_0;
        proof {
            assert(fentries[i] == (
                self.file_at(file_id.id()).entries()[i].0,
                model::kind_of(*item),
            ));
        }
        let resolved: Option<(FileId, position::Range)> = match item {
            semantic::Item::ModuleIdentifier { module_name, .. } => {
                match self.get_module(module_name) {
                    Some((fid2, it2)) => Some((fid2, *it2.location())),
                    None => None,
                }
            },
            semantic::Item::ModuleInstance { instance_name, .. } => {
                // never reached: location entries hold no instances
                proof {
                    assert(false);
                }
                match store::arena_get(&self.data[file_id.0].items, *instance_name) {
                    Some(it2) => Some((file_id, *it2.location())),
                    None => None,
                }
            },
            semantic::Item::UnknownIdentifier { .. } => Some((file_id, *item.location())),
        };
        let (fid2, location) = match resolved {
            Some(x) => x,
            None => {
                return None;
            },
        };
        let document = match catalog::catalog_get_by_id(&self.files, fid2) {
            Some(p) => p,
            None => {
                proof {
                    assert(catalog::catalog_pairs(self.files).contains_key(
                        self.paths@[fid2.id()],
                    ));
                }
                vstd::pervasive::unreached()
            },
        };
        proof {
            self.lemma_path_of_id(document@, fid2);
            assert(document@ == self@.paths[fid2.id()]);
        }
        Some(position::DocumentRange { document, range: location })
    }
}

impl Default for Db {
    /// A database that starts empty: no paths, no indexes, no global names.
    fn default() -> (d: Db)
        ensures
            d.wf(),
            d@.paths == Seq::<Seq<char>>::empty(),
            d@.files == Seq::<model::FileView>::empty(),
            d@.global == Map::<Seq<char>, (int, position::Range)>::empty(),
    {
        let d = Db {
            files: catalog::catalog_new(),
            data: Vec::new(),
            global_items: Vec::new(),
            paths: Ghost(Seq::empty()),
        };
        proof {
            assert(d@.files =~= Seq::<model::FileView>::empty());
            assert(d@.global =~= Map::<Seq<char>, (int, position::Range)>::empty());
        }
        d
    }
}

/// The location index of every indexed file is strictly sorted by begin
/// position — in particular no two entries share a begin.  `update` ensures
/// `wf`, so this holds after every update.
pub proof fn lemma_entries_strictly_sorted(db: Db, f: int)
    requires
        db.wf(),
        0 <= f < db@.files.len(),
    ensures
        forall|a: int, b: int|
            0 <= a < b < db@.files[f].entries.len() ==> position::pos_lt(
                db@.files[f].entries[a].0.begin,
                db@.files[f].entries[b].0.begin,
            ),
        forall|a: int, b: int|
            0 <= a < b < db@.files[f].entries.len() ==> db@.files[f].entries[a].0.begin
                != db@.files[f].entries[b].0.begin,
{
    let d = db.file_at(f);
    assert(db@.files[f] == d.abs());
    assert forall|a: int, b: int|
        0 <= a < b < db@.files[f].entries.len() implies position::pos_lt(
        db@.files[f].entries[a].0.begin,
        db@.files[f].entries[b].0.begin,
    ) by {
        assert(db@.files[f].entries[a].0 == d.entries()[a].0);
        assert(db@.files[f].entries[b].0 == d.entries()[b].0);
    }
    assert forall|a: int, b: int|
        0 <= a < b < db@.files[f].entries.len() implies db@.files[f].entries[a].0.begin
        != db@.files[f].entries[b].0.begin by {
        assert(position::pos_lt(db@.files[f].entries[a].0.begin, db@.files[f].entries[b].0.begin));
    }
}

/// A well-formed database's view has distinct paths and one index per
/// path, which is what the idempotence of `spec_update` asks of it.
pub proof fn lemma_wf_view(db: Db)
    requires
        db.wf(),
    ensures
        forall|i: int, j: int| 0 <= i < j < db@.paths.len() ==> db@.paths[i] != db@.paths[j],
        db@.paths.len() == db@.files.len(),
{
}

/// A name that no currently indexed file declares does not resolve: the
/// global table never holds a name outside the union of the files' declared
/// sets.  In particular, after a file's update removed its declaration of a
/// module, the module no longer resolves unless another file declares it.
pub proof fn lemma_undeclared_name_unresolved(db: Db, name: Seq<char>)
    requires
        db.wf(),
        forall|f: int|
            0 <= f < db@.files.len() ==> !(#[trigger] db@.files[f]).decls.contains_key(name),
    ensures
        !db@.global.contains_key(name),
{
    if assoc::assoc_map(db.global_items@).contains_key(name) {
        let (fid, iid) = assoc::assoc_map(db.global_items@)[name];
        assert(assoc::assoc_map(db.data@[fid.id()].decl_ids()).contains_key(name));
        assert(db@.files[fid.id()].decls.contains_key(name));
    }
}

/// A module-name occurrence whose name no file declares yields an empty
/// result from go-to-definition, not an error.
pub proof fn lemma_unresolved_reference(
    db: Db,
    doc: Seq<char>,
    pos: position::Position,
    name: Seq<char>,
)
    requires
        db.wf(),
        model::contains_path(db@.paths, doc),
        ({
            let fv = db@.files[model::path_id(db@.paths, doc)];
            model::bsearch(model::ranges_of(fv.entries), pos, 0, fv.entries.len() as int)
                matches Some(i) && fv.entries[i].1 == (model::EntryKind::Module { name })
        }),
        forall|f: int|
            0 <= f < db@.files.len() ==> !(#[trigger] db@.files[f]).decls.contains_key(name),
    ensures
        model::goto_spec(db@, doc, pos) is None,
{
    let fv = db@.files[model::path_id(db@.paths, doc)];
    model::lemma_bsearch_in_range(model::ranges_of(fv.entries), pos, 0, fv.entries.len() as int);
    lemma_undeclared_name_unresolved(db, name);
}

/// When the looked-up entry is a module-name occurrence, exactly one file
/// declares that name, and the global table holds it, go-to-definition
/// resolves to precisely that declaration's range in the declaring file.
/// (The table can lack a live name only after a past collision: a file that
/// also declared it was re-indexed without it and its removal evicted the
/// other file's entry.)
pub proof fn lemma_reference_resolves(
    db: Db,
    doc: Seq<char>,
    pos: position::Position,
    name: Seq<char>,
    f: int,
)
    requires
        db.wf(),
        model::contains_path(db@.paths, doc),
        ({
            let fv = db@.files[model::path_id(db@.paths, doc)];
            model::bsearch(model::ranges_of(fv.entries), pos, 0, fv.entries.len() as int)
                matches Some(i) && fv.entries[i].1 == (model::EntryKind::Module { name })
        }),
        0 <= f < db@.files.len(),
        db@.files[f].decls.contains_key(name),
        forall|g: int|
            0 <= g < db@.files.len() && (#[trigger] db@.files[g]).decls.contains_key(name) ==> g
                == f,
        db@.global.contains_key(name),
    ensures
        model::goto_spec(db@, doc, pos) == Some((db@.paths[f], db@.files[f].decls[name])),
{
    let fv = db@.files[model::path_id(db@.paths, doc)];
    model::lemma_bsearch_in_range(model::ranges_of(fv.entries), pos, 0, fv.entries.len() as int);
    let (fid, iid) = assoc::assoc_map(db.global_items@)[name];
    assert(assoc::assoc_map(db.data@[fid.id()].decl_ids()).contains_key(name));
    assert(db@.files[fid.id()].decls.contains_key(name));
    assert(fid.id() == f);
    assert(db@.global[name].1 == db.data@[f].store()[iid].spec_location());
    assert(db@.files[f].decls[name] == db.data@[f].store()[assoc::assoc_map(
        db.data@[f].decl_ids(),
    )[name]].spec_location());
}



/// The recoverable conditions that indexing one file can surface.  They are
/// reported to the caller of `update` for the file being indexed; other files
/// stay fully queryable.
#[derive(Debug, Clone, Copy, PartialEq, Eq, Structural)]
pub enum IndexError {
    /// Two items claim the same start position within one file.
    DuplicateLocation,
    /// A token's line number has no matching entry in the file's line table.
    LineIndexMismatch,
    /// A syntactic form the index builder does not yet model.
    UnsupportedConstruct,
}

} // verus!
