//! The mathematical model of the graph's state, over which the contracts
//! of evaluation, rebuilding and search are stated.

use crate::ast::{Expr, FunctionDecl};
use crate::function::{
    capped_sum, keys_distinct, rows_canonical, rows_typed, table_set, Row,
};
use crate::primitive::Primitive;
use crate::symbol::Symbol;
use crate::unionfind::{num_classes, roots_make_set, roots_union, roots_wf};
use crate::value::{Type, Value};
use vstd::prelude::*;

verus! {

/// The model of one function table.
pub struct TableModel {
    pub name: Symbol,
    pub input: Seq<Type>,
    pub output: Type,
    pub rows: Seq<Row>,
    pub updates: nat,
}

/// The model of the mutable state: the classes, the merges counted, the
/// pool of rationals, the tables and the global bindings.
pub struct StateModel {
    pub roots: Seq<int>,
    pub unions: nat,
    pub pool: Seq<(int, int)>,
    pub tables: Seq<TableModel>,
    pub globals: Map<Symbol, Value>,
}

/// The model of a declaration.
pub struct DeclModel {
    pub name: Symbol,
    pub input: Seq<Type>,
    pub output: Type,
    pub merge: Option<Expr>,
    pub default: Option<Expr>,
}

/// The model of a declaration.
pub open spec fn decl_model(d: FunctionDecl) -> DeclModel {
    DeclModel {
        name: d.name,
        input: d.schema.input@,
        output: d.schema.output,
        merge: d.merge,
        default: d.default,
    }
}

/// The models of the declarations.
pub open spec fn decl_models(decls: Seq<FunctionDecl>) -> Seq<DeclModel> {
    Seq::new(decls.len(), |i: int| decl_model(decls[i]))
}

/// What evaluation reads and never changes: the declarations, one for each
/// table, and the primitives.
pub struct Env {
    pub decls: Seq<DeclModel>,
    pub prims: Seq<Primitive>,
}

/// Whether a table of this name exists.
pub open spec fn has_function(tables: Seq<TableModel>, op: Symbol) -> bool {
    exists|i: int| 0 <= i < tables.len() && (#[trigger] tables[i]).name == op
}

/// The position of the table of this name.
pub open spec fn function_index(tables: Seq<TableModel>, op: Symbol) -> int {
    choose|i: int| 0 <= i < tables.len() && (#[trigger] tables[i]).name == op
}

/// No two tables have the same name.
pub open spec fn names_distinct(tables: Seq<TableModel>) -> bool {
    forall|i: int, j: int|
        0 <= i < j < tables.len() ==> (#[trigger] tables[i]).name != (#[trigger] tables[j]).name
}

/// Whether two lists of tables have the same functions with the same
/// schemas, position by position.
pub open spec fn same_schemas(a: Seq<TableModel>, b: Seq<TableModel>) -> bool {
    &&& a.len() == b.len()
    &&& forall|i: int|
        0 <= i < a.len() ==> (#[trigger] a[i]).name == b[i].name && a[i].input == b[i].input
            && a[i].output == b[i].output
}

impl TableModel {
    /// The table after `v` was stored under `k` and the insertion counted.
    pub open spec fn with_row(self, k: Seq<Value>, v: Value) -> TableModel {
        TableModel {
            rows: table_set(self.rows, k, v),
            updates: capped_sum(self.updates as int, 1) as nat,
            ..self
        }
    }

    /// Whether every row is in canonical form against `roots`.
    pub open spec fn canonical(self, roots: Seq<int>) -> bool {
        rows_canonical(roots, self.input, self.output, self.rows)
    }

    /// Whether every row fits the schema.
    pub open spec fn typed(self) -> bool {
        rows_typed(self.input, self.output, self.rows)
    }
}

impl StateModel {
    /// The state after `v` was stored under `k` in table `fi`.
    pub open spec fn with_row(self, fi: int, k: Seq<Value>, v: Value) -> StateModel {
        StateModel { tables: self.tables.update(fi, self.tables[fi].with_row(k, v)), ..self }
    }

    /// The state after a fresh class was allocated.
    pub open spec fn fresh_class(self) -> StateModel {
        StateModel { roots: roots_make_set(self.roots), ..self }
    }

    /// The state after the classes of `a` and `b` were merged.
    pub open spec fn merged(self, a: int, b: int) -> StateModel {
        StateModel {
            roots: roots_union(self.roots, a, b),
            unions: self.unions + if self.roots[a] == self.roots[b] {
                0nat
            } else {
                1nat
            },
            ..self
        }
    }

    /// The state after `var` was bound globally.
    pub open spec fn with_global(self, var: Symbol, v: Value) -> StateModel {
        StateModel { globals: self.globals.insert(var, v), ..self }
    }

    /// The number of equivalence classes.
    pub open spec fn classes(self) -> nat {
        num_classes(self.roots)
    }

    /// Whether every row of every table is in canonical form.
    pub open spec fn canonical(self) -> bool {
        forall|i: int| 0 <= i < self.tables.len() ==> (#[trigger] self.tables[i]).canonical(self.roots)
    }

    /// Whether no table has counted an insertion since its last rebuild.
    pub open spec fn settled(self) -> bool {
        forall|i: int| 0 <= i < self.tables.len() ==> (#[trigger] self.tables[i]).updates == 0
    }

    /// The invariant of the state: the classes have representatives, every
    /// counted merge removed a class, names and keys are unique, and every
    /// row fits the schema of its table.
    pub open spec fn wf(self) -> bool {
        &&& roots_wf(self.roots)
        &&& self.unions + num_classes(self.roots) == self.roots.len()
        &&& names_distinct(self.tables)
        &&& forall|i: int| 0 <= i < self.tables.len() ==> keys_distinct((#[trigger] self.tables[i]).rows)
        &&& forall|i: int| 0 <= i < self.tables.len() ==> (#[trigger] self.tables[i]).typed()
    }
}

impl Env {
    /// Whether the environment fits the tables: one declaration for each
    /// table, with its name and schema, and well-formed primitives.
    pub open spec fn fits(self, tables: Seq<TableModel>) -> bool {
        &&& self.decls.len() == tables.len()
        &&& forall|i: int|
            0 <= i < tables.len() ==> (#[trigger] self.decls[i]).name == tables[i].name
                && self.decls[i].input == tables[i].input && self.decls[i].output
                == tables[i].output
        &&& forall|i: int| 0 <= i < self.prims.len() ==> (#[trigger] self.prims[i]).wf()
    }
}

/// The position of a table is determined by its name.
pub proof fn lemma_function_index(tables: Seq<TableModel>, i: int)
    requires
        names_distinct(tables),
        0 <= i < tables.len(),
    ensures
        has_function(tables, tables[i].name),
        function_index(tables, tables[i].name) == i,
{
    let op = tables[i].name;
    assert(has_function(tables, op));
    let j = function_index(tables, op);
    if j < i {
        assert(tables[j].name != tables[i].name);
    } else if i < j {
        assert(tables[i].name != tables[j].name);
    }
}

} // verus!
