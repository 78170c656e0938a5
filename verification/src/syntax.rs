//! The library's own model of one parsed source file.
//!
//! The concrete-syntax-tree parser is an external collaborator: a host
//! converts its tree into this shape, which holds exactly what indexing
//! reads — token coordinates, line-terminator tokens, and the declaration
//! structure, classified by syntactic kind.

use vstd::prelude::*;

verus! {

/// A token's coordinates: absolute byte offset, 1-based line number, and
/// byte length, as the parser reports them.
#[derive(Debug, Clone, Copy, PartialEq, Eq, Structural)]
pub struct Locate {
    pub offset: usize,
    pub line: u32,
    pub len: usize,
}

impl Locate {
    /// The token lies within an addressable file.
    pub open spec fn wf(self) -> bool {
        self.offset + self.len <= usize::MAX
    }
}

/// One whitespace token that carries line terminators; `text` holds its
/// bytes and `offset` the absolute offset of its first byte.
#[derive(Debug)]
pub struct Newline {
    pub offset: usize,
    pub text: Vec<u8>,
}

impl Newline {
    pub open spec fn wf(self) -> bool {
        self.offset + self.text@.len() <= usize::MAX
    }
}

/// A module instantiation inside a module body: the referenced type name and
/// the instance's own name, each with the token it was read from.
#[derive(Debug)]
pub struct ModuleInstantiation {
    pub module_name: String,
    pub module_locate: Locate,
    pub instance_name: String,
    pub instance_locate: Locate,
}

impl ModuleInstantiation {
    pub open spec fn wf(self) -> bool {
        self.module_locate.wf() && self.instance_locate.wf()
    }
}

/// One item of a module body, by structural kind.  Only instantiations and
/// plain items are modeled further; the remaining kinds are reported as
/// `UnsupportedConstruct` by the builder.
#[derive(Debug)]
pub enum BodyItem {
    GenerateRegion,
    Parameter,
    Gate,
    Udp,
    Instantiation(ModuleInstantiation),
    ModuleItem,
    SpecifyBlock,
    Specparam,
    ProgramDeclaration,
    ModuleDeclaration,
    InterfaceDeclaration,
    TimeunitsDeclaration,
}

impl BodyItem {
    pub open spec fn wf(self) -> bool {
        match self {
            BodyItem::Instantiation(inst) => inst.wf(),
            _ => true,
        }
    }
}

/// A module declaration the builder handles: the `module` keyword token, the
/// declared name, the end-of-module token, and the body items.
#[derive(Debug)]
pub struct ModuleDecl {
    pub keyword: Locate,
    pub name: String,
    pub end: Locate,
    pub items: Vec<BodyItem>,
}

impl ModuleDecl {
    pub open spec fn wf(self) -> bool {
        &&& self.keyword.wf()
        &&& self.end.wf()
        &&& forall|i: int| 0 <= i < self.items@.len() ==> self.items@[i].wf()
    }
}

/// A module declaration by syntactic form.  The non-ANSI and ANSI header
/// forms are both indexed; wildcard and extern headers are unsupported.
#[derive(Debug)]
pub enum ModuleDeclaration {
    Nonansi(ModuleDecl),
    Ansi(ModuleDecl),
    Wildcard,
    ExternNonansi,
    ExternAnsi,
}

impl ModuleDeclaration {
    pub open spec fn wf(self) -> bool {
        match self {
            ModuleDeclaration::Nonansi(m) => m.wf(),
            ModuleDeclaration::Ansi(m) => m.wf(),
            _ => true,
        }
    }
}

/// One top-level description of the file.  Non-module descriptions are
/// legitimately skipped by the builder.
#[derive(Debug)]
pub enum Description {
    Module(ModuleDeclaration),
    Other,
}

impl Description {
    pub open spec fn wf(self) -> bool {
        match self {
            Description::Module(m) => m.wf(),
            Description::Other => true,
        }
    }
}

/// The model of one parsed file: its line-terminator tokens in source order
/// and its top-level descriptions.
#[derive(Debug)]
pub struct SyntaxTree {
    pub newlines: Vec<Newline>,
    pub descriptions: Vec<Description>,
}

impl SyntaxTree {
    /// Well-formedness of the token coordinates: every token lies within an
    /// addressable file and the line-terminator tokens come in source order
    /// without overlap.
    pub open spec fn wf(self) -> bool {
        &&& forall|i: int| 0 <= i < self.newlines@.len() ==> (#[trigger] self.newlines@[i]).wf()
        &&& forall|i: int|
            0 <= i + 1 < self.newlines@.len() ==> self.newlines@[i].offset
                + self.newlines@[i].text@.len() <= #[trigger] self.newlines@[i + 1].offset
        &&& forall|i: int| 0 <= i < self.descriptions@.len() ==> (#[trigger] self.descriptions@[i]).wf()
    }
}

} // verus!
