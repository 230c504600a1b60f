use vstd::prelude::*;
use crate::symbol::{OverrideEntry, SymbolTable};
use crate::tree::{Meaning, Token};

verus! {

/// A problem found in the declarations. Each points back at the offending
/// declaration by its position: the meaning node, and within it the field,
/// the method or the parameter.
#[derive(Debug, Clone, Copy, PartialEq, Eq, Structural)]
pub enum Diagnostic {
    /// The batch declares no meaning at all.
    NoMeanings,
    /// The first meaning declares a parent.
    RootInherits { node: usize },
    /// A meaning other than the first declares no parent.
    MissingBase { node: usize },
    /// The parent that a meaning names is not a registered meaning.
    BaseNotFound { node: usize },
    /// A meaning with this name is already registered.
    Redefinition { node: usize },
    /// The meaning already has a field with this name.
    FieldRedefinition { node: usize, field: usize },
    /// The meaning already has a method with this name.
    MethodRedefinition { node: usize, method: usize },
    /// An instance method whose receiver is not exactly `&self`.
    ReceiverShape { node: usize, method: usize },
    /// `override` or `inheritdoc` on a method that no ancestor declares.
    NoMethodInBase { node: usize, method: usize },
    /// `super.name(...)` where no ancestor declares `name`; `token` is the
    /// position of `super` in the method body.
    SuperNoMethodInBase { node: usize, method: usize, token: usize },
    /// A receiver where none may stand: in a constructor (`method` is
    /// `None`), or after the first parameter of a method.
    UnexpectedReceiver { node: usize, method: Option<usize>, input: usize },
    /// A parameter whose pattern is not a plain identifier.
    PatternNotIdent { node: usize, method: Option<usize>, input: usize },
}

/// One generated piece of the output. Meanings, fields and methods are
/// named by their symbol handles; `node` and `method` are positions in the
/// input declarations.
#[derive(Debug, Clone)]
pub enum Fragment {
    /// The arena type of the batch, which owns records of the root meaning.
    ArenaType { root: usize },
    /// The record of one layer: the meaning's own fields, and a discriminant
    /// with one variant per direct submeaning besides "no submeaning".
    DataRecord { meaning: usize, fields: Vec<usize>, variants: Vec<usize> },
    /// Getter and setter of `field`, reaching its layer through the records
    /// of `path`, the ascending chain of `meaning`.
    FieldAccessors { meaning: usize, field: usize, path: Vec<usize> },
    /// The public wrapper type of `meaning`. Two wrappers are equal, and
    /// hash alike, exactly when they reach the same root allocation; the
    /// field values play no part (see `Runtime::same_instance`).
    Wrapper { meaning: usize, node: usize },
    /// The conversion to the ancestor `to`, which unwraps `layers` layers.
    Upcast { from: usize, to: usize, layers: usize },
    /// The checked conversion to the descendant `to`: the discriminants must
    /// name each meaning of `path` in turn, the part of the chain of `to`
    /// below `from`.
    Downcast { from: usize, to: usize, path: Vec<usize> },
    /// `new`: one allocation of the records of `chain`, each field at its
    /// default; then, where there is a `parent`, its initializer with
    /// `super_arguments`; then this meaning's own initializer with
    /// `arguments`; then the instance is returned.
    Constructor {
        meaning: usize,
        node: usize,
        chain: Vec<usize>,
        parent: Option<usize>,
        super_arguments: Vec<String>,
        arguments: Vec<String>,
    },
    /// A method without receiver, emitted as declared.
    StaticMethod { meaning: usize, node: usize, method: usize },
    /// The hidden core of an instance method, with `super` calls rewritten.
    CoreMethod { meaning: usize, node: usize, method: usize, symbol: usize, arguments: Vec<String>, body: Vec<Token> },
    /// The public entry of an instance method: it forwards to the first
    /// override whose meaning the receiver is an instance of, else to the core.
    DispatchEntry { meaning: usize, node: usize, method: usize, symbol: usize, arguments: Vec<String>, overrides: Vec<OverrideEntry> },
    /// The `to` and `is` helpers of `meaning`.
    Helpers { meaning: usize },
}

/// Which symbol each declaration was bound to, if any.
pub struct TreeSemantics {
    pub meanings: Vec<Option<usize>>,
    pub methods: Vec<Vec<Option<usize>>>,
}

/// The state of one run of the passes over a batch of meanings.
pub struct SModelHost {
    pub table: SymbolTable,
    pub semantics: TreeSemantics,
    pub diagnostics: Vec<Diagnostic>,
    pub output: Vec<Fragment>,
}

impl TreeSemantics {
    /// The bindings of `nodes` before any pass ran: none.
    pub open spec fn shaped(&self, nodes: Seq<Meaning>) -> bool {
        &&& self.meanings@.len() == nodes.len()
        &&& self.methods@.len() == nodes.len()
        &&& forall|i: int| 0 <= i < nodes.len() ==> #[trigger] self.methods@[i]@.len() == nodes[i].methods@.len()
    }

    pub fn new(nodes: &Vec<Meaning>) -> (r: Self)
        ensures
            r.shaped(nodes@),
            forall|i: int| 0 <= i < nodes@.len() ==> #[trigger] r.meanings@[i] is None,
            forall|i: int, j: int| 0 <= i < nodes@.len() && 0 <= j < nodes@[i].methods@.len()
                ==> #[trigger] r.methods@[i]@[j] is None,
    {
        let mut meanings: Vec<Option<usize>> = Vec::new();
        let mut methods: Vec<Vec<Option<usize>>> = Vec::new();
        let n = nodes.len();
        let mut i: usize = 0;
        while i < n
            invariant
                n == nodes@.len(),
                i <= n,
                meanings@.len() == i,
                methods@.len() == i,
                forall|k: int| 0 <= k < i ==> #[trigger] meanings@[k] is None,
                forall|k: int| 0 <= k < i ==> #[trigger] methods@[k]@.len() == nodes@[k].methods@.len(),
                forall|k: int, j: int| 0 <= k < i && 0 <= j < nodes@[k].methods@.len() ==> #[trigger] methods@[k]@[j] is None,
            decreases n - i,
        {
            let m = nodes[i].methods.len();
            let mut slots: Vec<Option<usize>> = Vec::new();
            let mut j: usize = 0;
            while j < m
                invariant
                    j <= m,
                    slots@.len() == j,
                    forall|k: int| 0 <= k < j ==> #[trigger] slots@[k] is None,
                decreases m - j,
            {
                slots.push(None);
                j = j + 1;
            }
            meanings.push(None);
            methods.push(slots);
            i = i + 1;
        }
        TreeSemantics { meanings, methods }
    }
}

impl SModelHost {
    pub fn new(nodes: &Vec<Meaning>) -> (r: Self)
        ensures
            r.table.wf(),
            r.table.meanings@.len() == 0,
            r.table.fields@.len() == 0,
            r.table.methods@.len() == 0,
            r.semantics.shaped(nodes@),
            forall|i: int| 0 <= i < nodes@.len() ==> #[trigger] r.semantics.meanings@[i] is None,
            forall|i: int, j: int| 0 <= i < nodes@.len() && 0 <= j < nodes@[i].methods@.len()
                ==> #[trigger] r.semantics.methods@[i]@[j] is None,
            r.diagnostics@.len() == 0,
            r.output@.len() == 0,
    {
        SModelHost {
            table: SymbolTable::new(),
            semantics: TreeSemantics::new(nodes),
            diagnostics: Vec::new(),
            output: Vec::new(),
        }
    }
}

} // verus!
