use vstd::prelude::*;

use crate::variable::Variable;

verus! {

/// The names of variables with the variable of each, in the order in which
/// they were entered.
pub type NameTable = Seq<(Seq<char>, Variable)>;

/// Index of the entry for `name`, or -1 where there is none.
pub open spec fn find_name(e: NameTable, name: Seq<char>) -> int
    decreases e.len(),
{
    if e.len() == 0 {
        -1
    } else if e.last().0 == name {
        e.len() - 1
    } else {
        find_name(e.drop_last(), name)
    }
}

/// Index of the last entry whose variable is `var`, or -1 where there is none.
pub open spec fn find_var(e: NameTable, var: Variable) -> int
    decreases e.len(),
{
    if e.len() == 0 {
        -1
    } else if e.last().1 == var {
        e.len() - 1
    } else {
        find_var(e.drop_last(), var)
    }
}

/// The variable that `name` stands for.
pub open spec fn lookup_name(e: NameTable, name: Seq<char>) -> Option<Variable> {
    let i = find_name(e, name);
    if 0 <= i < e.len() {
        Some(e[i].1)
    } else {
        None
    }
}

/// A name of `var`.
pub open spec fn lookup_var(e: NameTable, var: Variable) -> Option<Seq<char>> {
    let i = find_var(e, var);
    if 0 <= i < e.len() {
        Some(e[i].0)
    } else {
        None
    }
}

/// No name is entered twice.
pub open spec fn names_unique(e: NameTable) -> bool {
    forall|i: int, j: int| 0 <= i < j < e.len() ==> #[trigger] e[i].0 != #[trigger] e[j].0
}

/// The variables that have a name.
pub open spec fn var_set(e: NameTable) -> Set<Variable> {
    Set::new(|v: Variable| exists|i: int| 0 <= i < e.len() && #[trigger] e[i].1 == v)
}

/// The table after `name` is met: a new name gets the variable numbered by
/// the count of names before it (modulo 256, as a byte); a known name
/// changes nothing.
pub open spec fn register(e: NameTable, name: Seq<char>) -> NameTable {
    if lookup_name(e, name) is Some {
        e
    } else {
        e.push((name, Variable((e.len() % 256) as u8)))
    }
}

/// The table after `entry` is stored, replacing the variable of a known name.
pub open spec fn store(e: NameTable, entry: (Seq<char>, Variable)) -> NameTable {
    let i = find_name(e, entry.0);
    if 0 <= i < e.len() {
        e.update(i, entry)
    } else {
        e.push(entry)
    }
}

/// The table after every entry of `other` is stored, in order.
pub open spec fn store_all(e: NameTable, other: NameTable) -> NameTable
    decreases other.len(),
{
    if other.len() == 0 {
        e
    } else {
        store(store_all(e, other.drop_last()), other.last())
    }
}

pub proof fn lemma_find_name(e: NameTable, name: Seq<char>)
    ensures
        -1 <= find_name(e, name) < e.len(),
        find_name(e, name) >= 0 ==> e[find_name(e, name)].0 == name,
        find_name(e, name) == -1 ==> forall|i: int| 0 <= i < e.len() ==> #[trigger] e[i].0 != name,
    decreases e.len(),
{
    if e.len() > 0 {
        lemma_find_name(e.drop_last(), name);
        if e.last().0 != name {
            assert forall|i: int| 0 <= i < e.len() && find_name(e, name) == -1 implies #[trigger] e[i].0
                != name by {
                if i < e.len() - 1 {
                    assert(e.drop_last()[i] == e[i]);
                }
            }
        }
    }
}

pub proof fn lemma_find_var(e: NameTable, var: Variable)
    ensures
        -1 <= find_var(e, var) < e.len(),
        find_var(e, var) >= 0 ==> e[find_var(e, var)].1 == var,
        find_var(e, var) == -1 ==> forall|i: int| 0 <= i < e.len() ==> #[trigger] e[i].1 != var,
    decreases e.len(),
{
    if e.len() > 0 {
        lemma_find_var(e.drop_last(), var);
        if e.last().1 != var {
            assert forall|i: int| 0 <= i < e.len() && find_var(e, var) == -1 implies #[trigger] e[i].1
                != var by {
                if i < e.len() - 1 {
                    assert(e.drop_last()[i] == e[i]);
                }
            }
        }
    }
}

/// A variable has a name exactly when it is in the table's variable set.
pub proof fn lemma_lookup_var_some(e: NameTable, var: Variable)
    ensures
        lookup_var(e, var) is Some <==> var_set(e).contains(var),
{
    lemma_find_var(e, var);
    if find_var(e, var) >= 0 {
        assert(e[find_var(e, var)].1 == var);
    }
}

/// After `register`, the name is known, the old entries are still there,
/// and the table stays free of repeated names.
pub proof fn lemma_register(e: NameTable, name: Seq<char>)
    requires
        names_unique(e),
    ensures
        names_unique(register(e, name)),
        lookup_name(register(e, name), name) is Some,
        register(e, name).len() >= e.len(),
        forall|i: int| 0 <= i < e.len() ==> #[trigger] register(e, name)[i] == e[i],
        var_set(e).subset_of(var_set(register(e, name))),
        var_set(register(e, name)).contains(lookup_name(register(e, name), name)->0),
{
    lemma_find_name(e, name);
    let r = register(e, name);
    if lookup_name(e, name) is None {
        assert(r.drop_last() == e);
        lemma_find_name(r, name);
        assert forall|i: int, j: int| 0 <= i < j < r.len() implies #[trigger] r[i].0 != #[trigger] r[j].0 by {
            if j == r.len() - 1 {
                assert(r[i] == e[i]);
            }
        }
        assert forall|v: Variable| var_set(e).contains(v) implies var_set(r).contains(v) by {
            let i = choose|i: int| 0 <= i < e.len() && #[trigger] e[i].1 == v;
            assert(r[i] == e[i]);
        }
        assert(r[r.len() - 1].1 == lookup_name(r, name)->0);
    } else {
        assert(e[find_name(e, name)].1 == lookup_name(e, name)->0);
    }
}

/// Storing an entry keeps the table free of repeated names.
pub proof fn lemma_store_unique(e: NameTable, entry: (Seq<char>, Variable))
    requires
        names_unique(e),
    ensures
        names_unique(store(e, entry)),
{
    lemma_find_name(e, entry.0);
    let r = store(e, entry);
    let i = find_name(e, entry.0);
    assert forall|a: int, b: int| 0 <= a < b < r.len() implies #[trigger] r[a].0 != #[trigger] r[b].0 by {
        if 0 <= i < e.len() {
            if a == i {
                assert(r[b] == e[b]);
            } else if b == i {
                assert(r[a] == e[a]);
            } else {
                assert(r[a] == e[a] && r[b] == e[b]);
            }
        } else if b == e.len() {
            assert(r[a] == e[a]);
        } else {
            assert(r[a] == e[a] && r[b] == e[b]);
        }
    }
}

/// Names of variables, each entered once.
pub struct VariableNames {
    names: Vec<(String, Variable)>,
}

impl View for VariableNames {
    type V = NameTable;

    closed spec fn view(&self) -> NameTable {
        self.names@.map_values(|p: (String, Variable)| (p.0@, p.1))
    }
}

impl VariableNames {
    /// The table has no repeated name.
    pub open spec fn wf(&self) -> bool {
        names_unique(self@)
    }

    pub fn new() -> (names: Self)
        ensures
            names@ == Seq::<(Seq<char>, Variable)>::empty(),
            names.wf(),
    {
        let names = Self { names: Vec::new() };
        assert(names@ =~= Seq::<(Seq<char>, Variable)>::empty());
        names
    }

    /// Index of the entry for `name`, if there is one.
    fn position_of_name(&self, name: &String) -> (res: Option<usize>)
        ensures
            match res {
                Some(i) => i as int == find_name(self@, name@),
                None => find_name(self@, name@) == -1,
            },
    {
        let mut i = self.names.len();
        assert(self@.take(i as int) =~= self@);
        while i > 0
            invariant
                i <= self.names@.len(),
                find_name(self@, name@) == find_name(self@.take(i as int), name@),
            decreases i,
        {
            let ghost prefix = self@.take(i as int);
            assert(prefix.drop_last() =~= self@.take(i - 1));
            if self.names[i - 1].0 == *name {
                return Some(i - 1);
            }
            i = i - 1;
        }
        None
    }

    /// Enters `name` unless it is known, and gives the variable it stands
    /// for: a new name gets the variable numbered by the count of names
    /// before it, as a byte.
    pub fn get_or_insert(&mut self, name: String) -> (var: Variable)
        requires
            old(self).wf(),
        ensures
            final(self)@ == register(old(self)@, name@),
            final(self).wf(),
            lookup_name(final(self)@, name@) == Some(var),
    {
        proof {
            lemma_register(self@, name@);
            lemma_find_name(self@, name@);
        }
        match self.position_of_name(&name) {
            Some(i) => self.names[i].1,
            None => {
                let current_len = self.names.len();
                let var = Variable::new((current_len % 256) as u8);
                self.names.push((name, var));
                assert(self@ =~= register(old(self)@, name@));
                var
            },
        }
    }

    /// Stores every entry of `names`, replacing the variable of names already
    /// known.
    pub fn push_names(&mut self, names: VariableNames)
        requires
            old(self).wf(),
        ensures
            final(self)@ == store_all(old(self)@, names@),
            final(self).wf(),
    {
        let other = names.names;
        let ghost other_view = names@;
        let mut k: usize = 0;
        while k < other.len()
            invariant
                k <= other@.len(),
                other_view == other@.map_values(|p: (String, Variable)| (p.0@, p.1)),
                self@ == store_all(old(self)@, other_view.take(k as int)),
                self.wf(),
            decreases other@.len() - k,
        {
            let entry = (other[k].0.clone(), other[k].1);
            assert(other_view.take(k + 1).drop_last() =~= other_view.take(k as int));
            proof {
                lemma_find_name(self@, entry.0@);
                lemma_store_unique(self@, (entry.0@, entry.1));
            }
            match self.position_of_name(&entry.0) {
                Some(i) => {
                    self.names.set(i, entry);
                },
                None => {
                    self.names.push(entry);
                },
            }
            assert(self@ =~= store(store_all(old(self)@, other_view.take(k as int)), other_view[k as int]));
            k = k + 1;
        }
        assert(other_view.take(k as int) =~= other_view);
    }

    /// All entries, in the order in which they were entered.
    pub fn names_map_owned(self) -> (entries: Vec<(String, Variable)>)
        ensures
            entries@.map_values(|p: (String, Variable)| (p.0@, p.1)) == self@,
    {
        self.names
    }

    /// A name of `var`: of the entries with that variable, the one entered
    /// last.
    pub fn get_name_from_variable(&self, var: &Variable) -> (res: Option<&String>)
        ensures
            match res {
                Some(name) => lookup_var(self@, *var) == Some(name@),
                None => lookup_var(self@, *var) is None,
            },
    {
        let mut i = self.names.len();
        assert(self@.take(i as int) =~= self@);
        while i > 0
            invariant
                i <= self.names@.len(),
                find_var(self@, *var) == find_var(self@.take(i as int), *var),
            decreases i,
        {
            let ghost prefix = self@.take(i as int);
            assert(prefix.drop_last() =~= self@.take(i - 1));
            if self.names[i - 1].1 == *var {
                return Some(&self.names[i - 1].0);
            }
            i = i - 1;
        }
        None
    }

    /// The variable that `name` stands for.
    pub fn get_variable(&self, name: &String) -> (res: Option<&Variable>)
        ensures
            match res {
                Some(var) => lookup_name(self@, name@) == Some(*var),
                None => lookup_name(self@, name@) is None,
            },
    {
        proof {
            lemma_find_name(self@, name@);
        }
        match self.position_of_name(name) {
            Some(i) => Some(&self.names[i].1),
            None => None,
        }
    }
}

} // verus!
