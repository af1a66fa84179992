//! Variable collections and their modes, and how a node resolves a variable to
//! its value in the mode chosen for it.
use vstd::prelude::*;

verus! {

#[derive(Debug, PartialEq, Eq)]
pub struct Mode {
    pub id: String,
    pub name: String,
}

#[derive(Debug, PartialEq, Eq)]
pub struct Collection {
    pub id: String,
    pub name: String,
    pub modes: Vec<Mode>,
}

/// A variable of `collection`: `values` holds its value in each mode of the
/// collection, keyed by the mode's id, all of one kind. `V` is what a value is
/// (a colour or a number where the document uses it).
#[derive(Debug)]
pub struct Variable<V> {
    pub id: String,
    pub collection: String,
    pub name: String,
    pub values: Vec<(String, V)>,
}

/// The collections and variables that bound colours and numbers refer to.
#[derive(Debug)]
pub struct Palette<V> {
    pub collections: Vec<Collection>,
    pub variables: Vec<Variable<V>>,
}

/// A palette seen from a node: `modes` holds the mode id chosen for a collection,
/// keyed by the collection's id; a collection not listed uses its first mode.
pub struct Scope<'a, V> {
    pub palette: &'a Palette<V>,
    pub modes: &'a [(String, String)],
}

/// The first index from `from` on at which `keys` holds `k`.
pub open spec fn position(keys: Seq<Seq<char>>, k: Seq<char>, from: int) -> Option<int>
    decreases keys.len() - from,
{
    if from < 0 || from >= keys.len() {
        None
    } else if keys[from] == k {
        Some(from)
    } else {
        position(keys, k, from + 1)
    }
}

pub open spec fn variable_ids<V>(vs: Seq<Variable<V>>) -> Seq<Seq<char>> {
    vs.map_values(|v: Variable<V>| v.id@)
}

pub open spec fn collection_ids(cs: Seq<Collection>) -> Seq<Seq<char>> {
    cs.map_values(|c: Collection| c.id@)
}

pub open spec fn mode_ids(ms: Seq<Mode>) -> Seq<Seq<char>> {
    ms.map_values(|m: Mode| m.id@)
}

pub open spec fn keys<V>(ps: Seq<(String, V)>) -> Seq<Seq<char>> {
    ps.map_values(|p: (String, V)| p.0@)
}

/// No key occurs twice among `keys`.
pub open spec fn distinct(keys: Seq<Seq<char>>) -> bool {
    forall|i: int, j: int| 0 <= i < j < keys.len() ==> keys[i] != keys[j]
}

impl<'a, V> Scope<'a, V> {
    /// The modes and each variable's values are maps: no collection is given a
    /// mode twice, and no variable has two values for one mode.
    pub open spec fn wf(self) -> bool {
        &&& distinct(keys(self.modes@))
        &&& forall|i: int|
            0 <= i < self.palette.variables@.len() ==> distinct(
                keys(#[trigger] self.palette.variables@[i].values@),
            )
    }

    /// The index of the mode of `c` this scope uses: the chosen one where it is a
    /// mode of `c`, else the first.
    pub open spec fn mode_of(self, c: Collection) -> Option<int> {
        let chosen = match position(keys(self.modes@), c.id@, 0) {
            Some(k) => position(mode_ids(c.modes@), self.modes@[k].1@, 0),
            None => None,
        };
        match chosen {
            Some(m) => Some(m),
            None => if c.modes@.len() > 0 {
                Some(0)
            } else {
                None
            },
        }
    }

    /// The value of the variable `id` in this scope, where the variable, its
    /// collection, a mode of it and a value for that mode are found.
    pub open spec fn resolve(self, id: Seq<char>) -> Option<V> {
        let vars = self.palette.variables@;
        let cols = self.palette.collections@;
        match position(variable_ids(vars), id, 0) {
            None => None,
            Some(i) => match position(collection_ids(cols), vars[i].collection@, 0) {
                None => None,
                Some(j) => match self.mode_of(cols[j]) {
                    None => None,
                    Some(m) => match position(
                        keys(vars[i].values@),
                        cols[j].modes@[m].id@,
                        0,
                    ) {
                        None => None,
                        Some(x) => Some(vars[i].values@[x].1),
                    },
                },
            },
        }
    }

    /// The value of the variable `variable` in the mode this scope uses for its
    /// collection.
    pub fn value(&self, variable: &str) -> (r: Option<&V>)
        requires
            self.wf(),
        ensures
            match r {
                Some(v) => self.resolve(variable@) == Some(*v),
                None => self.resolve(variable@) is None,
            },
    {
        let wanted = String::from_str(variable);
        let vars = &self.palette.variables;
        let cols = &self.palette.collections;
        let i = match find_variable(vars, &wanted) {
            Some(i) => i,
            None => return None,
        };
        let v = &vars[i];
        let j = match find_collection(cols, &v.collection) {
            Some(j) => j,
            None => return None,
        };
        let c = &cols[j];
        let chosen = match find_key(self.modes, &c.id) {
            Some(k) => find_mode(&c.modes, &self.modes[k].1),
            None => None,
        };
        let m = match chosen {
            Some(m) => m,
            None => {
                if c.modes.len() > 0 {
                    0
                } else {
                    return None;
                }
            },
        };
        match find_key(&v.values, &c.modes[m].id) {
            Some(x) => Some(&v.values[x].1),
            None => None,
        }
    }
}

/// A collection that the modes do not list uses its first mode; one they list
/// uses the chosen mode where the collection has it.
pub proof fn lemma_modes_choose_or_default_to_the_first<'a, V>(
    scope: Scope<'a, V>,
    c: Collection,
)
    ensures
        position(keys(scope.modes@), c.id@, 0) is None && c.modes@.len() > 0 ==> scope.mode_of(c)
            == Some(0int),
        forall|k: int, m: int|
            position(keys(scope.modes@), c.id@, 0) == Some(k) && position(
                mode_ids(c.modes@),
                scope.modes@[k].1@,
                0,
            ) == Some(m) ==> scope.mode_of(c) == Some(m) && c.modes@[m].id@
                == scope.modes@[k].1@,
{
    assert forall|k: int, m: int|
        position(keys(scope.modes@), c.id@, 0) == Some(k) && position(
            mode_ids(c.modes@),
            scope.modes@[k].1@,
            0,
        ) == Some(m) implies scope.mode_of(c) == Some(m) && c.modes@[m].id@
        == scope.modes@[k].1@ by {
        lemma_position_finds(mode_ids(c.modes@), scope.modes@[k].1@, 0);
    }
}

/// A position found holds the key and lies inside the keys.
pub proof fn lemma_position_finds(keys: Seq<Seq<char>>, k: Seq<char>, from: int)
    ensures
        position(keys, k, from) matches Some(i) ==> from <= i < keys.len() && keys[i] == k,
    decreases keys.len() - from,
{
    if 0 <= from < keys.len() && keys[from] != k {
        lemma_position_finds(keys, k, from + 1);
    }
}

/// Among distinct keys, the one equal to `k` is the one `position` finds.
pub proof fn lemma_distinct_position(keys: Seq<Seq<char>>, k: Seq<char>, i: int)
    requires
        distinct(keys),
        0 <= i < keys.len(),
        keys[i] == k,
    ensures
        position(keys, k, 0) == Some(i),
{
    lemma_position_from(keys, k, i, 0);
}

proof fn lemma_position_from(keys: Seq<Seq<char>>, k: Seq<char>, i: int, from: int)
    requires
        distinct(keys),
        0 <= from <= i < keys.len(),
        keys[i] == k,
    ensures
        position(keys, k, from) == Some(i),
    decreases i - from,
{
    if from < i {
        assert(keys[from] != keys[i]);
        lemma_position_from(keys, k, i, from + 1);
    }
}

/// A position not found is nowhere from `from` on.
pub proof fn lemma_position_none(keys: Seq<Seq<char>>, k: Seq<char>, from: int)
    requires
        0 <= from,
        position(keys, k, from) is None,
    ensures
        forall|i: int| from <= i < keys.len() ==> keys[i] != k,
    decreases keys.len() - from,
{
    if from < keys.len() {
        lemma_position_none(keys, k, from + 1);
    }
}

impl<'a, V> Scope<'a, V> {
    /// The mode `m` of the collection `c` is one this scope uses for `c`: a mode
    /// chosen for `c` with that id, or the first mode of `c` when none of its
    /// modes is chosen.
    pub open spec fn uses_mode(self, c: Collection, m: int) -> bool {
        &&& 0 <= m < c.modes@.len()
        &&& {
            ||| exists|k: int|
                0 <= k < self.modes@.len() && self.modes@[k].0@ == c.id@ && (
                #[trigger] self.modes@[k]).1@ == c.modes@[m].id@
            ||| m == 0 && forall|k: int, mm: int|
                0 <= k < self.modes@.len() && (#[trigger] self.modes@[k]).0@ == c.id@ && 0 <= mm
                    < c.modes@.len() ==> self.modes@[k].1@ != (#[trigger] c.modes@[mm]).id@
        }
    }

    /// The value `v` is the one that variable `i`, named `id`, of collection `j`
    /// holds for mode `m` of that collection, under the key of the mode's id.
    pub open spec fn keyed(self, id: Seq<char>, v: V, i: int, j: int, m: int, x: int) -> bool {
        let vars = self.palette.variables@;
        let cols = self.palette.collections@;
        &&& 0 <= i < vars.len()
        &&& vars[i].id@ == id
        &&& 0 <= j < cols.len()
        &&& cols[j].id@ == vars[i].collection@
        &&& self.uses_mode(cols[j], m)
        &&& 0 <= x < vars[i].values@.len()
        &&& vars[i].values@[x].0@ == cols[j].modes@[m].id@
        &&& vars[i].values@[x].1 == v
    }
}

/// A variable's value is the one stored under the id of the mode used for its
/// collection, whatever the order of its values: the chosen mode, or the first.
pub proof fn lemma_value_is_keyed_by_the_mode_used<'a, V>(scope: Scope<'a, V>, id: Seq<char>)
    requires
        scope.wf(),
    ensures
        scope.resolve(id) matches Some(v) ==> exists|i: int, j: int, m: int, x: int|
            #[trigger] scope.keyed(id, v, i, j, m, x),
{
    let vars = scope.palette.variables@;
    let cols = scope.palette.collections@;
    if let Some(v) = scope.resolve(id) {
        let i = position(variable_ids(vars), id, 0)->Some_0;
        lemma_position_finds(variable_ids(vars), id, 0);
        let j = position(collection_ids(cols), vars[i].collection@, 0)->Some_0;
        lemma_position_finds(collection_ids(cols), vars[i].collection@, 0);
        let c = cols[j];
        let m = scope.mode_of(c)->Some_0;
        let x = position(keys(vars[i].values@), c.modes@[m].id@, 0)->Some_0;
        lemma_position_finds(keys(vars[i].values@), c.modes@[m].id@, 0);
        let chosen = match position(keys(scope.modes@), c.id@, 0) {
            Some(k) => position(mode_ids(c.modes@), scope.modes@[k].1@, 0),
            None => None,
        };
        match position(keys(scope.modes@), c.id@, 0) {
            Some(k) => {
                lemma_position_finds(keys(scope.modes@), c.id@, 0);
                assert(keys(scope.modes@)[k] == scope.modes@[k].0@);
                match chosen {
                    Some(mm) => {
                        lemma_position_finds(mode_ids(c.modes@), scope.modes@[k].1@, 0);
                        assert(mode_ids(c.modes@)[mm] == c.modes@[mm].id@);
                        assert(scope.modes@[k].1@ == c.modes@[m].id@);
                    },
                    None => {
                        lemma_position_none(mode_ids(c.modes@), scope.modes@[k].1@, 0);
                        assert forall|k2: int, mm: int|
                            0 <= k2 < scope.modes@.len() && (#[trigger] scope.modes@[k2]).0@
                                == c.id@ && 0 <= mm < c.modes@.len() implies scope.modes@[k2].1@
                            != (#[trigger] c.modes@[mm]).id@ by {
                            assert(keys(scope.modes@)[k2] == scope.modes@[k2].0@);
                            if k2 != k {
                                assert(keys(scope.modes@)[k2] == keys(scope.modes@)[k]);
                            }
                            assert(mode_ids(c.modes@)[mm] == c.modes@[mm].id@);
                        }
                    },
                }
            },
            None => {
                lemma_position_none(keys(scope.modes@), c.id@, 0);
                assert forall|k2: int, mm: int|
                    0 <= k2 < scope.modes@.len() && (#[trigger] scope.modes@[k2]).0@ == c.id@ && 0
                        <= mm < c.modes@.len() implies scope.modes@[k2].1@ != (
                    #[trigger] c.modes@[mm]).id@ by {
                    assert(keys(scope.modes@)[k2] == scope.modes@[k2].0@);
                }
            },
        }
        assert(keys(vars[i].values@)[x] == vars[i].values@[x].0@);
        assert(variable_ids(vars)[i] == vars[i].id@);
        assert(collection_ids(cols)[j] == cols[j].id@);
        assert(scope.keyed(id, v, i, j, m, x));
    }
}

fn find_variable<V>(vs: &Vec<Variable<V>>, id: &String) -> (r: Option<usize>)
    ensures
        match r {
            Some(i) => position(variable_ids(vs@), id@, 0) == Some(i as int) && i < vs@.len(),
            None => position(variable_ids(vs@), id@, 0) is None,
        },
{
    let ghost ks = variable_ids(vs@);
    let mut i: usize = 0;
    while i < vs.len()
        invariant
            i <= vs@.len(),
            ks == variable_ids(vs@),
            position(ks, id@, 0) == position(ks, id@, i as int),
        decreases vs@.len() - i,
    {
        assert(ks[i as int] == vs@[i as int].id@);
        if vs[i].id == *id {
            return Some(i);
        }
        i = i + 1;
    }
    None
}

fn find_collection(cs: &Vec<Collection>, id: &String) -> (r: Option<usize>)
    ensures
        match r {
            Some(i) => position(collection_ids(cs@), id@, 0) == Some(i as int) && i < cs@.len(),
            None => position(collection_ids(cs@), id@, 0) is None,
        },
{
    let ghost ks = collection_ids(cs@);
    let mut i: usize = 0;
    while i < cs.len()
        invariant
            i <= cs@.len(),
            ks == collection_ids(cs@),
            position(ks, id@, 0) == position(ks, id@, i as int),
        decreases cs@.len() - i,
    {
        assert(ks[i as int] == cs@[i as int].id@);
        if cs[i].id == *id {
            return Some(i);
        }
        i = i + 1;
    }
    None
}

fn find_mode(ms: &Vec<Mode>, id: &String) -> (r: Option<usize>)
    ensures
        match r {
            Some(i) => position(mode_ids(ms@), id@, 0) == Some(i as int) && i < ms@.len(),
            None => position(mode_ids(ms@), id@, 0) is None,
        },
{
    let ghost ks = mode_ids(ms@);
    let mut i: usize = 0;
    while i < ms.len()
        invariant
            i <= ms@.len(),
            ks == mode_ids(ms@),
            position(ks, id@, 0) == position(ks, id@, i as int),
        decreases ms@.len() - i,
    {
        assert(ks[i as int] == ms@[i as int].id@);
        if ms[i].id == *id {
            return Some(i);
        }
        i = i + 1;
    }
    None
}

fn find_key<V>(ps: &[(String, V)], k: &String) -> (r: Option<usize>)
    ensures
        match r {
            Some(i) => position(keys(ps@), k@, 0) == Some(i as int) && i < ps@.len(),
            None => position(keys(ps@), k@, 0) is None,
        },
{
    let ghost ks = keys(ps@);
    let mut i: usize = 0;
    while i < ps.len()
        invariant
            i <= ps@.len(),
            ks == keys(ps@),
            position(ks, k@, 0) == position(ks, k@, i as int),
        decreases ps@.len() - i,
    {
        assert(ks[i as int] == ps@[i as int].0@);
        if ps[i].0 == *k {
            return Some(i);
        }
        i = i + 1;
    }
    None
}

} // verus!
