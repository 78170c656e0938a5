use sv_language_index::position::{DocumentPosition, Position};
use sv_language_index::syntax::{
    BodyItem, Description, Locate, ModuleDecl, ModuleDeclaration, ModuleInstantiation,
    SyntaxTree,
};
use sv_language_index::{Db, IndexError};

fn locate(offset: usize, line: u32, len: usize) -> Locate {
    Locate { offset, line, len }
}

/// `module <name>; endmodule`, all on one line starting at `base`.
fn simple_module(name: &str, base: usize, line: u32) -> Description {
    Description::Module(ModuleDeclaration::Nonansi(ModuleDecl {
        keyword: locate(base, line, 6),
        name: name.to_string(),
        end: locate(base + 9 + name.len(), line, 9),
        items: vec![],
    }))
}

/// `module <name>; <ty> <inst>(); endmodule` on one line starting at 0.
fn module_with_instance(name: &str, ty: &str, inst: &str) -> Description {
    let ty_at = 9 + name.len();
    let inst_at = ty_at + ty.len() + 1;
    let end_at = inst_at + inst.len() + 4;
    Description::Module(ModuleDeclaration::Nonansi(ModuleDecl {
        keyword: locate(0, 1, 6),
        name: name.to_string(),
        end: locate(end_at, 1, 9),
        items: vec![BodyItem::Instantiation(ModuleInstantiation {
            module_name: ty.to_string(),
            module_locate: locate(ty_at, 1, ty.len()),
            instance_name: inst.to_string(),
            instance_locate: locate(inst_at, 1, inst.len()),
        })],
    }))
}

fn tree_of(descriptions: Vec<Description>) -> SyntaxTree {
    SyntaxTree { newlines: vec![], descriptions }
}

fn pos(row: usize, col: usize) -> Position {
    Position { row, col }
}

fn query(db: &Db, path: &str, row: usize, col: usize) -> Option<(String, usize, usize, usize, usize)> {
    db.goto_definition(DocumentPosition { document: path.to_string(), position: pos(row, col) })
        .map(|dr| {
            (
                dr.document,
                dr.range.begin.row,
                dr.range.begin.col,
                dr.range.end.row,
                dr.range.end.col,
            )
        })
}

// Scenario: `top.sv` holds `module top; mod_a inst1(); endmodule` and
// `leaf.sv` declares `mod_a`.  The type-name use resolves to the declaring
// span in leaf.sv; the instance name resolves to its own token in top.sv.
#[test]
fn goto_definition_across_files() {
    let mut db = Db::default();
    // module top; mod_a inst1(); endmodule
    //         offsets: mod_a at 12, inst1 at 18, endmodule at 27
    let top = tree_of(vec![module_with_instance("top", "mod_a", "inst1")]);
    // module mod_a; endmodule   (endmodule at 14)
    let leaf = tree_of(vec![simple_module("mod_a", 0, 1)]);
    db.update("top.sv".to_string(), &top).unwrap();
    db.update("leaf.sv".to_string(), &leaf).unwrap();

    // at the `mod_a` type-name occurrence inside top.sv
    let hit = query(&db, "top.sv", 0, 12).unwrap();
    assert_eq!(hit, ("leaf.sv".to_string(), 0, 0, 0, 14));

    // at the `inst1` instance name: resolves to its own token range
    let hit = query(&db, "top.sv", 0, 18).unwrap();
    assert_eq!(hit, ("top.sv".to_string(), 0, 18, 0, 23));
}

// A point query against a path the database never saw is an empty result.
#[test]
fn unknown_path_is_empty_result() {
    let mut db = Db::default();
    let top = tree_of(vec![module_with_instance("top", "mod_a", "inst1")]);
    db.update("top.sv".to_string(), &top).unwrap();
    assert!(query(&db, "elsewhere.sv", 0, 12).is_none());
}

// An instantiation whose referenced type is declared nowhere resolves to
// nothing, not an error.
#[test]
fn undeclared_type_is_empty_result() {
    let mut db = Db::default();
    let top = tree_of(vec![module_with_instance("top", "mod_b", "inst1")]);
    db.update("top.sv".to_string(), &top).unwrap();
    assert!(query(&db, "top.sv", 0, 12).is_none());
}

// Re-running update on the same (path, tree) answers every query the same.
#[test]
fn update_is_idempotent() {
    let top = tree_of(vec![module_with_instance("top", "mod_a", "inst1")]);
    let leaf = tree_of(vec![simple_module("mod_a", 0, 1)]);

    let mut once = Db::default();
    once.update("top.sv".to_string(), &top).unwrap();
    once.update("leaf.sv".to_string(), &leaf).unwrap();

    let mut twice = Db::default();
    twice.update("top.sv".to_string(), &top).unwrap();
    twice.update("leaf.sv".to_string(), &leaf).unwrap();
    twice.update("top.sv".to_string(), &top).unwrap();

    for col in 0..40 {
        assert_eq!(query(&once, "top.sv", 0, col), query(&twice, "top.sv", 0, col));
        assert_eq!(query(&once, "leaf.sv", 0, col), query(&twice, "leaf.sv", 0, col));
    }
}

// After a re-update of the declaring file removes module `mod_a`, the name
// no longer resolves, even though another file still uses it.
#[test]
fn removed_declaration_stops_resolving() {
    let mut db = Db::default();
    let top = tree_of(vec![module_with_instance("top", "mod_a", "inst1")]);
    let leaf_with = tree_of(vec![simple_module("mod_a", 0, 1)]);
    let leaf_without = tree_of(vec![simple_module("mod_c", 0, 1)]);
    db.update("top.sv".to_string(), &top).unwrap();
    db.update("leaf.sv".to_string(), &leaf_with).unwrap();
    assert!(query(&db, "top.sv", 0, 12).is_some());

    db.update("leaf.sv".to_string(), &leaf_without).unwrap();
    assert!(query(&db, "top.sv", 0, 12).is_none());
}

// When two files declare the same module, the most recently updated file
// wins, and re-updating the other flips resolution to it.
#[test]
fn last_update_wins_for_duplicate_declarations() {
    let mut db = Db::default();
    let user = tree_of(vec![module_with_instance("top", "mod_a", "inst1")]);
    let a = tree_of(vec![simple_module("mod_a", 0, 1)]);
    let b = tree_of(vec![simple_module("mod_a", 0, 1)]);
    db.update("top.sv".to_string(), &user).unwrap();
    db.update("a.sv".to_string(), &a).unwrap();
    db.update("b.sv".to_string(), &b).unwrap();
    assert_eq!(query(&db, "top.sv", 0, 12).unwrap().0, "b.sv");

    db.update("a.sv".to_string(), &a).unwrap();
    assert_eq!(query(&db, "top.sv", 0, 12).unwrap().0, "a.sv");
}

// Location-index entries stay strictly sorted by begin position, with no
// two entries sharing a begin.
#[test]
fn location_entries_strictly_sorted() {
    let mut db = Db::default();
    let top = tree_of(vec![module_with_instance("top", "mod_a", "inst1")]);
    let fid = db.update("top.sv".to_string(), &top).unwrap();
    let data = db.get_data(fid).unwrap();
    let n = data.entry_count();
    assert_eq!(n, 3);
    for i in 1..n {
        let a = data.entry_range(i - 1).unwrap().begin;
        let b = data.entry_range(i).unwrap().begin;
        assert!(a.row < b.row || (a.row == b.row && a.col < b.col));
    }
}

// Two items that would claim the same start position are a structural
// error; the database is left untouched and other files stay queryable.
#[test]
fn duplicate_location_is_reported_and_database_kept() {
    let mut db = Db::default();
    let leaf = tree_of(vec![simple_module("mod_a", 0, 1)]);
    let top = tree_of(vec![module_with_instance("top", "mod_a", "inst1")]);
    db.update("leaf.sv".to_string(), &leaf).unwrap();
    db.update("top.sv".to_string(), &top).unwrap();

    // two declarations whose keyword tokens share offset 0
    let clash = tree_of(vec![simple_module("m1", 0, 1), simple_module("m2", 0, 1)]);
    let err = db.update("top.sv".to_string(), &clash).unwrap_err();
    assert_eq!(err, IndexError::DuplicateLocation);

    // the previous index for top.sv is still in place
    let hit = query(&db, "top.sv", 0, 12).unwrap();
    assert_eq!(hit.0, "leaf.sv");
}

// A token whose line number has no entry in the line table is reported as
// an inconsistency, not silently mis-positioned.
#[test]
fn line_mismatch_is_reported() {
    let mut db = Db::default();
    let bad = tree_of(vec![simple_module("mod_a", 0, 7)]);
    let err = db.update("bad.sv".to_string(), &bad).unwrap_err();
    assert_eq!(err, IndexError::LineIndexMismatch);
}

// A syntactic form the builder does not model is an explicit error, never a
// crash: a primitive gate inside a body, and a wildcard module header.
#[test]
fn unsupported_constructs_are_reported() {
    let mut db = Db::default();
    let gate = tree_of(vec![Description::Module(ModuleDeclaration::Nonansi(ModuleDecl {
        keyword: locate(0, 1, 6),
        name: "m".to_string(),
        end: locate(20, 1, 9),
        items: vec![BodyItem::Gate],
    }))]);
    assert_eq!(
        db.update("g.sv".to_string(), &gate).unwrap_err(),
        IndexError::UnsupportedConstruct
    );

    let wild = tree_of(vec![Description::Module(ModuleDeclaration::Wildcard)]);
    assert_eq!(
        db.update("w.sv".to_string(), &wild).unwrap_err(),
        IndexError::UnsupportedConstruct
    );
}

// Plain body items and non-module descriptions are legitimately skipped.
#[test]
fn plain_items_are_skipped() {
    let mut db = Db::default();
    let t = tree_of(vec![
        Description::Other,
        Description::Module(ModuleDeclaration::Ansi(ModuleDecl {
            keyword: locate(0, 1, 6),
            name: "m".to_string(),
            end: locate(30, 1, 9),
            items: vec![BodyItem::ModuleItem, BodyItem::ModuleItem],
        })),
    ]);
    let fid = db.update("m.sv".to_string(), &t).unwrap();
    assert_eq!(db.get_data(fid).unwrap().entry_count(), 1);
}
