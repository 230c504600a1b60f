use vstd::prelude::*;
use crate::arena::Arena;

verus! {

/// One line of an override table: `method`, declared in `meaning`, overrides
/// the method that owns the table.
#[derive(Debug, Clone, Copy, PartialEq, Eq, Structural)]
pub struct OverrideEntry {
    pub meaning: usize,
    pub method: usize,
}

/// A field of a meaning.
pub struct FieldSymbol {
    pub name: String,
    pub is_ref: bool,
    pub field_type: String,
    pub field_init: String,
}

/// An instance method of a meaning.
pub struct MethodSymbol {
    pub name: String,
    pub defined_in: usize,
    pub doc: Option<String>,
    /// The methods that override this one directly, each with the meaning
    /// that declares it.
    pub override_logic_mapping: Vec<OverrideEntry>,
}

/// A meaning: a record type with at most one parent.
pub struct MeaningSymbol {
    pub name: String,
    pub inherits: Option<usize>,
    pub fields: Vec<usize>,
    pub methods: Vec<usize>,
    pub submeanings: Vec<usize>,
}

/// All symbols of one batch of meanings. A symbol is named by its handle in
/// the arena of its kind; two symbols are the same exactly when their
/// handles are.
pub struct SymbolTable {
    pub meanings: Arena<MeaningSymbol>,
    pub fields: Arena<FieldSymbol>,
    pub methods: Arena<MethodSymbol>,
}

impl SymbolTable {
    pub open spec fn n_meanings(&self) -> int {
        self.meanings@.len() as int
    }

    pub open spec fn is_meaning(&self, m: usize) -> bool {
        m < self.meanings@.len()
    }

    pub open spec fn parent(&self, m: usize) -> Option<usize> {
        self.meanings@[m as int].inherits
    }

    pub open spec fn methods_of(&self, m: usize) -> Seq<usize> {
        self.meanings@[m as int].methods@
    }

    pub open spec fn fields_of(&self, m: usize) -> Seq<usize> {
        self.meanings@[m as int].fields@
    }

    pub open spec fn method_name(&self, s: usize) -> Seq<char> {
        self.methods@[s as int].name@
    }

    pub open spec fn defined_in(&self, s: usize) -> usize {
        self.methods@[s as int].defined_in
    }

    pub open spec fn overrides_of(&self, s: usize) -> Seq<OverrideEntry> {
        self.methods@[s as int].override_logic_mapping@
    }

    /// The ascending chain of `m`: its ancestors from the root down, then `m`.
    pub open spec fn asc_chain(&self, m: usize) -> Seq<usize>
        decreases m,
    {
        match self.parent(m) {
            Some(p) => if p < m {
                self.asc_chain(p).push(m)
            } else {
                seq![m]
            },
            None => seq![m],
        }
    }

    /// `a` is `d` or one of its ancestors.
    pub open spec fn is_ancestor_or_self(&self, a: usize, d: usize) -> bool {
        self.asc_chain(d).contains(a)
    }

    /// `m` declares a method called `name`.
    pub open spec fn declares(&self, m: usize, name: Seq<char>) -> bool {
        exists|k: int| 0 <= k < self.methods_of(m).len() && self.method_name(#[trigger] self.methods_of(m)[k]) == name
    }

    /// The method called `name` that `m` declares, where it declares one.
    pub open spec fn own_method(&self, m: usize, name: Seq<char>) -> usize {
        let k = choose|k: int| 0 <= k < self.methods_of(m).len() && self.method_name(#[trigger] self.methods_of(m)[k]) == name;
        self.methods_of(m)[k]
    }

    /// The method called `name` that `m` sees: its own, else the one that its
    /// nearest declaring ancestor has.
    pub open spec fn lookup_from(&self, m: usize, name: Seq<char>) -> Option<usize>
        decreases m,
    {
        if self.declares(m, name) {
            Some(self.own_method(m, name))
        } else {
            match self.parent(m) {
                Some(p) => if p < m {
                    self.lookup_from(p, name)
                } else {
                    None
                },
                None => None,
            }
        }
    }

    /// The method called `name` that the parent of `m` sees: the target of
    /// `override` and of `super.name(...)` in `m`.
    pub open spec fn lookup_in_base(&self, m: usize, name: Seq<char>) -> Option<usize> {
        match self.parent(m) {
            Some(p) => if p < m {
                self.lookup_from(p, name)
            } else {
                None
            },
            None => None,
        }
    }

    pub open spec fn wf_meaning(&self, m: usize) -> bool {
        let ms = self.meanings@[m as int];
        &&& ms.inherits matches Some(p) ==> p < m
        &&& forall|k: int| 0 <= k < ms.fields@.len() ==> #[trigger] ms.fields@[k] < self.fields@.len()
        &&& forall|k1: int, k2: int|
            0 <= k1 < ms.fields@.len() && 0 <= k2 < ms.fields@.len() && k1 != k2
                ==> self.fields@[ms.fields@[k1] as int].name@ != self.fields@[ms.fields@[k2] as int].name@
        &&& forall|k: int| 0 <= k < ms.methods@.len() ==> #[trigger] ms.methods@[k] < self.methods@.len()
            && self.methods@[ms.methods@[k] as int].defined_in == m
        &&& forall|k1: int, k2: int|
            0 <= k1 < ms.methods@.len() && 0 <= k2 < ms.methods@.len() && k1 != k2
                ==> self.method_name(ms.methods@[k1]) != self.method_name(ms.methods@[k2])
        &&& forall|k: int| 0 <= k < ms.submeanings@.len() ==> #[trigger] ms.submeanings@[k] < self.meanings@.len()
            && self.parent(ms.submeanings@[k]) == Some(m)
        &&& forall|s: usize| s < self.meanings@.len() && self.parent(s) == Some(m) ==> ms.submeanings@.contains(s)
        &&& ms.submeanings@.no_duplicates()
    }

    pub open spec fn wf_override(&self, s: usize, e: OverrideEntry) -> bool {
        &&& e.meaning < self.meanings@.len()
        &&& e.method < self.methods@.len()
        &&& self.defined_in(e.method) == e.meaning
        &&& self.method_name(e.method) == self.method_name(s)
        &&& self.lookup_in_base(e.meaning, self.method_name(s)) == Some(s)
    }

    pub open spec fn wf_method(&self, s: usize) -> bool {
        &&& self.defined_in(s) < self.meanings@.len()
        &&& self.methods_of(self.defined_in(s)).contains(s)
        &&& forall|k: int| 0 <= k < self.overrides_of(s).len() ==> self.wf_override(s, #[trigger] self.overrides_of(s)[k])
    }

    /// The table's invariant: parents come before their children, names are
    /// unique where they must be, the back-references agree with the parent
    /// links, and each override table lists true overrides only.
    pub open spec fn wf(&self) -> bool {
        &&& forall|m: usize| m < self.meanings@.len() ==> #[trigger] self.wf_meaning(m)
        &&& forall|m1: usize, m2: usize|
            m1 < self.meanings@.len() && m2 < self.meanings@.len() && m1 != m2
                ==> #[trigger] self.meanings@[m1 as int].name@ != #[trigger] self.meanings@[m2 as int].name@
        &&& forall|s: usize| s < self.methods@.len() ==> #[trigger] self.wf_method(s)
    }

    pub fn new() -> (r: Self)
        ensures
            r.wf(),
            r.meanings@.len() == 0,
            r.fields@.len() == 0,
            r.methods@.len() == 0,
    {
        SymbolTable { meanings: Arena::new(), fields: Arena::new(), methods: Arena::new() }
    }

    /// The ascending chain of `m`, root first.
    pub fn asc_meaning_list(&self, m: usize) -> (r: Vec<usize>)
        requires
            self.wf(),
            self.is_meaning(m),
        ensures
            r@ == self.asc_chain(m),
        decreases m,
    {
        assert(self.wf_meaning(m));
        match self.meanings.get(m).inherits {
            Some(p) => {
                let mut r = self.asc_meaning_list(p);
                r.push(m);
                r
            },
            None => vec![m],
        }
    }

    /// The meaning called `name`, if there is one.
    pub fn find_meaning(&self, name: &String) -> (r: Option<usize>)
        ensures
            match r {
                Some(m) => self.is_meaning(m) && self.meanings@[m as int].name@ == name@,
                None => forall|m: usize| self.is_meaning(m) ==> self.meanings@[m as int].name@ != name@,
            },
    {
        let n = self.meanings.len();
        let mut i: usize = 0;
        while i < n
            invariant
                n == self.meanings@.len(),
                i <= n,
                forall|m: usize| m < i ==> self.meanings@[m as int].name@ != name@,
            decreases n - i,
        {
            if self.meanings.get(i).name == *name {
                return Some(i);
            }
            i = i + 1;
        }
        None
    }

    /// The method called `name` that `m` itself declares, if any.
    pub fn lookup_method(&self, m: usize, name: &String) -> (r: Option<usize>)
        requires
            self.wf(),
            self.is_meaning(m),
        ensures
            r == (if self.declares(m, name@) {
                Some(self.own_method(m, name@))
            } else {
                None
            }),
    {
        assert(self.wf_meaning(m));
        let methods = &self.meanings.get(m).methods;
        let n = methods.len();
        let mut i: usize = 0;
        while i < n
            invariant
                self.wf(),
                self.is_meaning(m),
                *methods == self.meanings@[m as int].methods,
                n == methods@.len(),
                i <= n,
                forall|k: int| 0 <= k < i ==> self.method_name(#[trigger] methods@[k]) != name@,
            decreases n - i,
        {
            assert(self.wf_meaning(m));
            let s = methods[i];
            if self.methods.get(s).name == *name {
                proof {
                    let k = choose|k: int| 0 <= k < self.methods_of(m).len() && self.method_name(#[trigger] self.methods_of(m)[k]) == name@;
                    assert(k == i as int);
                }
                return Some(s);
            }
            i = i + 1;
        }
        None
    }

    /// The method called `name` that the parent of `m` sees, if any.
    pub fn lookup_method_in_base_meaning(&self, m: usize, name: &String) -> (r: Option<usize>)
        requires
            self.wf(),
            self.is_meaning(m),
        ensures
            r == self.lookup_in_base(m, name@),
    {
        assert(self.wf_meaning(m));
        let mut cur = self.meanings.get(m).inherits;
        while cur.is_some()
            invariant
                self.wf(),
                cur matches Some(c) ==> self.is_meaning(c),
                self.lookup_in_base(m, name@) == match cur {
                    Some(c) => self.lookup_from(c, name@),
                    None => None,
                },
            decreases match cur { Some(c) => c as int + 1, None => 0 },
        {
            let c = cur.unwrap();
            assert(self.wf_meaning(c));
            match self.lookup_method(c, name) {
                Some(s) => {
                    return Some(s);
                },
                None => {
                    cur = self.meanings.get(c).inherits;
                },
            }
        }
        None
    }
}


/// The ascending chain of a root has length one; that of any other meaning is
/// one longer than its parent's.
pub proof fn lemma_ascending_chain_length(t: &SymbolTable, m: usize)
    requires
        t.wf(),
        t.is_meaning(m),
    ensures
        t.parent(m) is None ==> t.asc_chain(m).len() == 1,
        t.parent(m) matches Some(p) ==> t.asc_chain(m).len() == 1 + t.asc_chain(p).len(),
{
    assert(t.wf_meaning(m));
}

/// Every member of the ascending chain of `m` is a meaning no later than
/// `m`, and the chain ends with `m`.
pub proof fn lemma_chain_members(t: &SymbolTable, m: usize)
    requires
        t.wf(),
        t.is_meaning(m),
    ensures
        t.asc_chain(m).len() >= 1,
        t.asc_chain(m).last() == m,
        forall|k: int| 0 <= k < t.asc_chain(m).len() ==> #[trigger] t.asc_chain(m)[k] <= m,
        forall|k: int| 0 <= k < t.asc_chain(m).len() - 1 ==> #[trigger] t.asc_chain(m)[k] < m,
        t.parent(m) is None ==> t.asc_chain(m).len() == 1,
        t.parent(m) matches Some(p) ==> t.asc_chain(m).len() >= 2 && t.asc_chain(m)[t.asc_chain(m).len() - 2] == p,
    decreases m,
{
    assert(t.wf_meaning(m));
    if let Some(p) = t.parent(m) {
        lemma_chain_members(t, p);
    }
}

/// The chain of any member of the chain of `m` is a prefix of it.
pub proof fn lemma_chain_prefix(t: &SymbolTable, m: usize, j: int)
    requires
        t.wf(),
        t.is_meaning(m),
        0 <= j < t.asc_chain(m).len(),
    ensures
        t.asc_chain(t.asc_chain(m)[j]) == t.asc_chain(m).take(j + 1),
    decreases m,
{
    assert(t.wf_meaning(m));
    lemma_chain_members(t, m);
    if j == t.asc_chain(m).len() - 1 {
        assert(t.asc_chain(m).take(j + 1) =~= t.asc_chain(m));
    } else {
        let p = t.parent(m).unwrap();
        lemma_chain_members(t, p);
        lemma_chain_prefix(t, p, j);
        assert(t.asc_chain(m).take(j + 1) =~= t.asc_chain(p).take(j + 1));
    }
}

/// Of two members of one chain, the earlier is an ancestor of the later.
pub proof fn lemma_chain_ordered(t: &SymbolTable, m: usize, i: int, j: int)
    requires
        t.wf(),
        t.is_meaning(m),
        0 <= i <= j < t.asc_chain(m).len(),
    ensures
        t.is_ancestor_or_self(t.asc_chain(m)[i], t.asc_chain(m)[j]),
        t.asc_chain(m)[i] <= t.asc_chain(m)[j],
        i < j ==> t.asc_chain(m)[i] < t.asc_chain(m)[j],
{
    lemma_chain_prefix(t, m, j);
    let c = t.asc_chain(m)[j];
    assert(t.asc_chain(c)[i] == t.asc_chain(m)[i]);
    lemma_chain_members(t, m);
    lemma_chain_members(t, c);
    assert(t.asc_chain(c).len() == j + 1);
}

/// What `lookup_from` finds is a method of that name, declared in a member of
/// the chain.
pub proof fn lemma_lookup_found(t: &SymbolTable, m: usize, name: Seq<char>)
    requires
        t.wf(),
        t.is_meaning(m),
    ensures
        t.lookup_from(m, name) matches Some(s) ==> {
            &&& s < t.methods@.len()
            &&& t.method_name(s) == name
            &&& t.is_ancestor_or_self(t.defined_in(s), m)
        },
        t.lookup_from(m, name) is None ==> forall|k: int|
            0 <= k < t.asc_chain(m).len() ==> !t.declares(#[trigger] t.asc_chain(m)[k], name),
    decreases m,
{
    assert(t.wf_meaning(m));
    lemma_chain_members(t, m);
    if t.declares(m, name) {
        let k = choose|k: int| 0 <= k < t.methods_of(m).len() && t.method_name(#[trigger] t.methods_of(m)[k]) == name;
        assert(t.methods_of(m)[k] < t.methods@.len());
        assert(t.asc_chain(m).last() == m);
    } else if let Some(p) = t.parent(m) {
        lemma_lookup_found(t, p, name);
        if let Some(s) = t.lookup_from(p, name) {
            let k = choose|k: int| 0 <= k < t.asc_chain(p).len() && t.asc_chain(p)[k] == t.defined_in(s);
            assert(t.asc_chain(m)[k] == t.defined_in(s));
        } else {
            assert forall|k: int| 0 <= k < t.asc_chain(m).len() implies !t.declares(#[trigger] t.asc_chain(m)[k], name) by {
                if k < t.asc_chain(m).len() - 1 {
                    assert(t.asc_chain(m)[k] == t.asc_chain(p)[k]);
                }
            }
        }
    }
}

/// What `lookup_from` finds is declared in the nearest declaring member of
/// the chain: any member that declares the name lies at or above it.
pub proof fn lemma_lookup_nearest(t: &SymbolTable, m: usize, name: Seq<char>, y: usize)
    requires
        t.wf(),
        t.is_meaning(m),
        t.is_ancestor_or_self(y, m),
        t.declares(y, name),
        t.lookup_from(m, name) is Some,
    ensures
        y <= t.defined_in(t.lookup_from(m, name).unwrap()),
    decreases m,
{
    assert(t.wf_meaning(m));
    lemma_chain_members(t, m);
    if t.declares(m, name) {
        let k = choose|k: int| 0 <= k < t.methods_of(m).len() && t.method_name(#[trigger] t.methods_of(m)[k]) == name;
        assert(t.methods_of(m)[k] < t.methods@.len());
        let i = choose|i: int| 0 <= i < t.asc_chain(m).len() && t.asc_chain(m)[i] == y;
        assert(y <= m);
    } else {
        let p = t.parent(m).unwrap();
        let i = choose|i: int| 0 <= i < t.asc_chain(m).len() && t.asc_chain(m)[i] == y;
        assert(y != m);
        assert(i < t.asc_chain(m).len() - 1);
        assert(t.asc_chain(p)[i] == y);
        lemma_lookup_nearest(t, p, name, y);
    }
}

/// Lookups and chains only read the parents and the methods of a meaning and
/// of its ancestors: two tables that agree on those agree on them.
pub proof fn lemma_lookup_frame(t1: &SymbolTable, t2: &SymbolTable, m: usize, name: Seq<char>)
    requires
        t1.wf(),
        t1.is_meaning(m),
        t2.is_meaning(m),
        forall|y: usize| y <= m ==> #[trigger] t2.parent(y) == t1.parent(y) && t2.methods_of(y) == t1.methods_of(y),
        t1.methods@.len() <= t2.methods@.len(),
        forall|s: usize| s < t1.methods@.len() ==> #[trigger] t2.method_name(s) == t1.method_name(s),
    ensures
        t2.asc_chain(m) == t1.asc_chain(m),
        t2.lookup_from(m, name) == t1.lookup_from(m, name),
        t2.declares(m, name) == t1.declares(m, name),
    decreases m,
{
    assert(t1.wf_meaning(m));
    assert(t2.parent(m) == t1.parent(m));
    assert(t2.methods_of(m) == t1.methods_of(m));
    assert(t2.declares(m, name) == t1.declares(m, name)) by {
        if t1.declares(m, name) {
            let k = choose|k: int| 0 <= k < t1.methods_of(m).len() && t1.method_name(#[trigger] t1.methods_of(m)[k]) == name;
            assert(t2.method_name(t2.methods_of(m)[k]) == name);
        }
        if t2.declares(m, name) {
            let k = choose|k: int| 0 <= k < t2.methods_of(m).len() && t2.method_name(#[trigger] t2.methods_of(m)[k]) == name;
            assert(t1.method_name(t1.methods_of(m)[k]) == name);
        }
    }
    if t1.declares(m, name) {
        assert forall|k: int| 0 <= k < t1.methods_of(m).len() implies
            (t1.method_name(#[trigger] t1.methods_of(m)[k]) == name) == (t2.method_name(t2.methods_of(m)[k]) == name) by {}
    }
    if let Some(p) = t1.parent(m) {
        lemma_lookup_frame(t1, t2, p, name);
    }
}

} // verus!
