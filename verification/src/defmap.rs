use vstd::prelude::*;

verus! {

broadcast use vstd::utf8::char_u32_cast;

/// Lexicographic order of texts by character code, the order of Rust's
/// `String` (whose byte order agrees with it).
pub open spec fn name_lt(a: Seq<char>, b: Seq<char>) -> bool
    decreases a.len(),
{
    if a.len() == 0 {
        b.len() > 0
    } else if b.len() == 0 {
        false
    } else if a[0] != b[0] {
        (a[0] as u32) < (b[0] as u32)
    } else {
        name_lt(a.drop_first(), b.drop_first())
    }
}

pub proof fn lemma_name_lt_irreflexive(a: Seq<char>)
    ensures
        !name_lt(a, a),
    decreases a.len(),
{
    if a.len() > 0 {
        lemma_name_lt_irreflexive(a.drop_first());
    }
}

pub proof fn lemma_name_lt_transitive(a: Seq<char>, b: Seq<char>, c: Seq<char>)
    requires
        name_lt(a, b),
        name_lt(b, c),
    ensures
        name_lt(a, c),
    decreases a.len(),
{
    if a.len() > 0 && b.len() > 0 && c.len() > 0 {
        if a[0] == b[0] && b[0] == c[0] {
            lemma_name_lt_transitive(a.drop_first(), b.drop_first(), c.drop_first());
        }
    }
}

pub proof fn lemma_name_lt_total(a: Seq<char>, b: Seq<char>)
    ensures
        name_lt(a, b) || name_lt(b, a) || a == b,
    decreases a.len(),
{
    if a.len() > 0 && b.len() > 0 {
        if a[0] == b[0] {
            lemma_name_lt_total(a.drop_first(), b.drop_first());
            if a.drop_first() == b.drop_first() {
                assert(a =~= seq![a[0]] + a.drop_first());
                assert(b =~= seq![b[0]] + b.drop_first());
            }
        } else if (a[0] as u32) == (b[0] as u32) {
            vstd::utf8::char_u32_cast(a[0], a[0] as u32);
            vstd::utf8::char_u32_cast(b[0], b[0] as u32);
        }
    } else if a.len() == 0 && b.len() == 0 {
        assert(a =~= b);
    }
}

pub proof fn lemma_name_lt_asymmetric(a: Seq<char>, b: Seq<char>)
    requires
        name_lt(a, b),
    ensures
        !name_lt(b, a),
        a != b,
{
    if name_lt(b, a) {
        lemma_name_lt_transitive(a, b, a);
        lemma_name_lt_irreflexive(a);
    }
    if a == b {
        lemma_name_lt_irreflexive(a);
    }
}

/// Whether `a` sorts before `b`, and whether they are equal.
pub fn compare_names(a: &str, b: &str) -> (r: (bool, bool))
    ensures
        r.0 == name_lt(a@, b@),
        r.1 == (a@ == b@),
{
    let na = a.unicode_len();
    let nb = b.unicode_len();
    let mut k: usize = 0;
    assert(a@.skip(0) =~= a@);
    assert(b@.skip(0) =~= b@);
    assert(a@.subrange(0, 0) =~= b@.subrange(0, 0));
    while k < na && k < nb
        invariant
            na == a@.len(),
            nb == b@.len(),
            k <= na,
            k <= nb,
            a@.subrange(0, k as int) == b@.subrange(0, k as int),
            name_lt(a@, b@) == name_lt(a@.skip(k as int), b@.skip(k as int)),
        decreases na - k,
    {
        let ca = a.get_char(k);
        let cb = b.get_char(k);
        proof {
            assert(a@.skip(k as int)[0] == ca);
            assert(b@.skip(k as int)[0] == cb);
            assert(a@.skip(k as int).drop_first() =~= a@.skip(k + 1));
            assert(b@.skip(k as int).drop_first() =~= b@.skip(k + 1));
        }
        if ca != cb {
            proof {
                if a@ == b@ {
                    assert(a@[k as int] == b@[k as int]);
                }
            }
            return ((ca as u32) < (cb as u32), false);
        }
        proof {
            assert(a@.subrange(0, k + 1) =~= a@.subrange(0, k as int).push(ca));
            assert(b@.subrange(0, k + 1) =~= b@.subrange(0, k as int).push(cb));
        }
        k = k + 1;
    }
    proof {
        if na == k {
            assert(a@.skip(k as int).len() == 0);
            if nb == k {
                assert(a@ =~= a@.subrange(0, k as int));
                assert(b@ =~= b@.subrange(0, k as int));
            } else {
                assert(a@ != b@) by {
                    assert(a@.len() != b@.len());
                }
            }
        } else {
            assert(b@.skip(k as int).len() == 0);
            assert(a@.len() != b@.len());
        }
    }
    (k == na && k < nb, na == nb)
}

/// A definition: its id, name, and the statement that made it.
#[derive(Debug)]
pub struct Symbol {
    pub id: SymbolId,
    pub name: String,
    pub def_stmt: u64,
}

#[derive(Clone, Copy, Debug, PartialEq, Eq, Hash, Structural)]
pub struct SymbolId(pub u64);

/// A symbol as a value.
pub struct SymbolModel {
    pub id: SymbolId,
    pub name: Seq<char>,
    pub def_stmt: u64,
}

impl View for Symbol {
    type V = SymbolModel;

    open spec fn view(&self) -> SymbolModel {
        SymbolModel { id: self.id, name: self.name@, def_stmt: self.def_stmt }
    }
}

impl Symbol {
    /// A copy of this symbol.
    pub fn duplicate(&self) -> (s: Symbol)
        ensures
            s@ == self@,
    {
        Symbol { id: self.id, name: self.name.clone(), def_stmt: self.def_stmt }
    }
}

/// Definitions by name, kept in name order: one symbol per name.
#[derive(Debug)]
pub struct DefMap {
    entries: Vec<Symbol>,
}

/// Strictly increasing names.
pub open spec fn sorted_names(s: Seq<Symbol>) -> bool {
    forall|i: int, j: int| 0 <= i < j < s.len() ==> name_lt((#[trigger] s[i]).name@, (#[trigger] s[j]).name@)
}

impl DefMap {
    /// Names strictly increase along the entries.
    #[verifier::type_invariant]
    pub closed spec fn in_order(&self) -> bool {
        sorted_names(self.entries@)
    }

    /// What holds of a map whose names are in order: its symbols are sorted,
    /// each is the map's value at its name, and each name of the map is one
    /// of them.
    pub proof fn lemma_in_order(&self)
        requires
            self.in_order(),
        ensures
            sorted_names(self.symbols()),
            forall|i: int| 0 <= i < self.symbols().len() ==> self.map().dom().contains((#[trigger] self.symbols()[i]).name@)
                && self.map()[self.symbols()[i].name@] == self.symbols()[i]@,
            forall|n: Seq<char>| #[trigger] self.map().dom().contains(n) ==> exists|i: int| 0 <= i < self.symbols().len() && (#[trigger] self.symbols()[i]).name@ == n,
    {
        assert forall|i: int| 0 <= i < self.symbols().len() implies self.map().dom().contains((#[trigger] self.symbols()[i]).name@)
            && self.map()[self.symbols()[i].name@] == self.symbols()[i]@ by {
            self.lemma_map_at(i);
        }
        assert forall|n: Seq<char>| #[trigger] self.map().dom().contains(n) implies exists|i: int| 0 <= i < self.symbols().len() && (#[trigger] self.symbols()[i]).name@ == n by {
            let i = choose|i: int| 0 <= i < self.entries@.len() && (#[trigger] self.entries@[i]).name@ == n;
            assert(self.symbols()[i].name@ == n);
        }
    }

    /// The symbols in name order.
    pub closed spec fn symbols(&self) -> Seq<Symbol> {
        self.entries@
    }

    /// The definitions as a map from name.
    pub closed spec fn map(&self) -> Map<Seq<char>, SymbolModel> {
        Map::new(
            |n: Seq<char>| exists|i: int| 0 <= i < self.entries@.len() && (#[trigger] self.entries@[i]).name@ == n,
            |n: Seq<char>| self.entries@[self.index_of(n)]@,
        )
    }

    spec fn index_of(&self, n: Seq<char>) -> int {
        choose|i: int| 0 <= i < self.entries@.len() && (#[trigger] self.entries@[i]).name@ == n
    }

    /// The names in order.
    pub closed spec fn names(&self) -> Seq<Seq<char>> {
        self.entries@.map_values(|s: Symbol| s.name@)
    }

    proof fn lemma_map_at(&self, i: int)
        requires
            sorted_names(self.entries@),
            0 <= i < self.entries@.len(),
        ensures
            self.map().dom().contains(self.entries@[i].name@),
            self.map()[self.entries@[i].name@] == self.entries@[i]@,
    {
        let n = self.entries@[i].name@;
        assert(0 <= i < self.entries@.len() && self.entries@[i].name@ == n);
        assert(self.map().dom().contains(n));
        let j = self.index_of(n);
        assert(self.map()[n] == self.entries@[j]@);
        if j != i {
            if j < i {
                assert(name_lt(self.entries@[j].name@, self.entries@[i].name@));
            } else {
                assert(name_lt(self.entries@[i].name@, self.entries@[j].name@));
            }
            lemma_name_lt_irreflexive(n);
        }
    }

    pub fn new() -> (m: DefMap)
        ensures
            m.symbols().len() == 0,
            m.map() == Map::<Seq<char>, SymbolModel>::empty(),
    {
        let m = DefMap { entries: Vec::new() };
        assert(m.map() =~= Map::<Seq<char>, SymbolModel>::empty());
        m
    }

    pub fn len(&self) -> (n: usize)
        ensures
            n == self.symbols().len(),
    {
        self.entries.len()
    }

    pub fn is_empty(&self) -> (b: bool)
        ensures
            b == (self.symbols().len() == 0),
    {
        self.entries.len() == 0
    }

    /// Position of `name`, or of the first entry after it.
    fn position(&self, name: &str) -> (r: (usize, bool))
        ensures
            r.0 <= self.entries@.len(),
            r.1 ==> r.0 < self.entries@.len() && self.entries@[r.0 as int].name@ == name@,
            !r.1 ==> forall|i: int| 0 <= i < self.entries@.len() ==> (#[trigger] self.entries@[i]).name@ != name@,
            forall|i: int| 0 <= i < r.0 ==> name_lt((#[trigger] self.entries@[i]).name@, name@),
            !r.1 ==> forall|i: int| r.0 <= i < self.entries@.len() ==> name_lt(name@, (#[trigger] self.entries@[i]).name@),
    {
        proof {
            use_type_invariant(self);
        }
        let mut k: usize = 0;
        while k < self.entries.len()
            invariant
                k <= self.entries@.len(),
                sorted_names(self.entries@),
                forall|i: int| 0 <= i < k ==> name_lt((#[trigger] self.entries@[i]).name@, name@),
            decreases self.entries@.len() - k,
        {
            let (lt, eq) = compare_names(self.entries[k].name.as_str(), name);
            if eq {
                return (k, true);
            }
            if !lt {
                proof {
                    lemma_name_lt_total(self.entries@[k as int].name@, name@);
                    assert forall|i: int| 0 <= i < self.entries@.len() implies (#[trigger] self.entries@[i]).name@ != name@ by {
                        if i < k {
                            lemma_name_lt_irreflexive(name@);
                        } else if i > k {
                            assert(name_lt(self.entries@[k as int].name@, self.entries@[i].name@));
                            lemma_name_lt_transitive(name@, self.entries@[k as int].name@, self.entries@[i].name@);
                            lemma_name_lt_irreflexive(name@);
                        }
                    }
                    assert forall|i: int| k <= i < self.entries@.len() implies name_lt(name@, (#[trigger] self.entries@[i]).name@) by {
                        if i > k {
                            assert(name_lt(self.entries@[k as int].name@, self.entries@[i].name@));
                            lemma_name_lt_transitive(name@, self.entries@[k as int].name@, self.entries@[i].name@);
                        }
                    }
                }
                return (k, false);
            }
            k = k + 1;
        }
        proof {
            assert forall|i: int| 0 <= i < self.entries@.len() implies (#[trigger] self.entries@[i]).name@ != name@ by {
                lemma_name_lt_irreflexive(name@);
            }
        }
        (k, false)
    }

    pub fn contains_key(&self, name: &str) -> (b: bool)
        ensures
            b == self.map().dom().contains(name@),
    {
        proof {
            use_type_invariant(self);
        }
        let (k, found) = self.position(name);
        proof {
            if found {
                self.lemma_map_at(k as int);
            }
        }
        found
    }

    pub fn get(&self, name: &str) -> (r: Option<&Symbol>)
        ensures
            r is Some == self.map().dom().contains(name@),
            r matches Some(s) ==> s@ == self.map()[name@],
    {
        proof {
            use_type_invariant(self);
        }
        let (k, found) = self.position(name);
        if found {
            proof {
                self.lemma_map_at(k as int);
            }
            Some(&self.entries[k])
        } else {
            None
        }
    }

    /// Add `sym` under its name, replacing a symbol of the same name.
    pub fn insert(&mut self, sym: Symbol)
        ensures
            final(self).map() == old(self).map().insert(sym.name@, sym@),
    {
        proof {
            use_type_invariant(&*self);
        }
        let (k, found) = self.position(sym.name.as_str());
        let ghost old_e = self.entries@;
        let ghost n = sym.name@;
        let ghost sv = sym@;
        if found {
            let mut entries = Vec::new();
            std::mem::swap(&mut entries, &mut self.entries);
            entries.set(k, sym);
            proof {
                assert forall|i: int, j: int| 0 <= i < j < entries@.len() implies
                    name_lt((#[trigger] entries@[i]).name@, (#[trigger] entries@[j]).name@) by {
                    assert(old_e[k as int].name@ == n);
                }
            }
            self.entries = entries;
        } else {
            let mut entries = Vec::new();
            std::mem::swap(&mut entries, &mut self.entries);
            entries.insert(k, sym);
            proof {
                assert forall|i: int, j: int| 0 <= i < j < entries@.len() implies
                    name_lt((#[trigger] entries@[i]).name@, (#[trigger] entries@[j]).name@) by {
                    if j < k {
                        assert(entries@[i] == old_e[i] && entries@[j] == old_e[j]);
                    } else if j == k {
                        assert(entries@[i] == old_e[i]);
                    } else if i == k {
                        assert(entries@[j] == old_e[j - 1]);
                    } else if i < k {
                        assert(entries@[i] == old_e[i] && entries@[j] == old_e[j - 1]);
                    } else {
                        assert(entries@[i] == old_e[i - 1] && entries@[j] == old_e[j - 1]);
                    }
                }
            }
            self.entries = entries;
        }
        proof {
            use_type_invariant(&*self);
            let m = old(self).map().insert(n, sv);
            assert forall|x: Seq<char>| #[trigger] self.map().dom().contains(x) <==> m.dom().contains(x) by {
                if m.dom().contains(x) {
                    if x == n {
                        assert(self.entries@[k as int].name@ == n);
                    } else {
                        let i = choose|i: int| 0 <= i < old_e.len() && (#[trigger] old_e[i]).name@ == x;
                        if found {
                            assert(self.entries@[i] == old_e[i]);
                        } else if i < k {
                            assert(self.entries@[i] == old_e[i]);
                        } else {
                            assert(self.entries@[i + 1] == old_e[i]);
                        }
                    }
                }
                if self.map().dom().contains(x) {
                    let i = choose|i: int| 0 <= i < self.entries@.len() && (#[trigger] self.entries@[i]).name@ == x;
                    if x != n {
                        if found {
                            assert(self.entries@[i] == old_e[i]);
                        } else if i < k {
                            assert(self.entries@[i] == old_e[i]);
                        } else {
                            assert(self.entries@[i] == old_e[i - 1]);
                        }
                    }
                }
            }
            assert forall|x: Seq<char>| #[trigger] self.map().dom().contains(x) implies self.map()[x] == m[x] by {
                let i = choose|i: int| 0 <= i < self.entries@.len() && (#[trigger] self.entries@[i]).name@ == x;
                self.lemma_map_at(i);
                if x == n {
                    if found {
                        assert(i == k) by {
                            if i != k {
                                if i < k {
                                    assert(name_lt(self.entries@[i].name@, self.entries@[k as int].name@));
                                } else {
                                    assert(name_lt(self.entries@[k as int].name@, self.entries@[i].name@));
                                }
                                lemma_name_lt_irreflexive(n);
                            }
                        }
                    } else {
                        assert(i == k) by {
                            if i != k {
                                if i < k {
                                    assert(name_lt(self.entries@[i].name@, self.entries@[k as int].name@));
                                } else {
                                    assert(name_lt(self.entries@[k as int].name@, self.entries@[i].name@));
                                }
                                lemma_name_lt_irreflexive(n);
                            }
                        }
                    }
                } else {
                    let oi: int = if found || i < k { i } else { i - 1 };
                    assert(self.entries@[i] == old_e[oi]);
                    old(self).lemma_map_at(oi);
                }
            }
            assert(self.map() =~= m);
        }
    }

    /// The names in order.
    pub fn keys(&self) -> (r: Vec<String>)
        ensures
            r@.len() == self.symbols().len(),
            forall|i: int| 0 <= i < r@.len() ==> (#[trigger] r@[i])@ == self.symbols()[i].name@,
            sorted_names(self.symbols()),
            forall|n: Seq<char>| #[trigger] self.map().dom().contains(n) <==> exists|i: int| 0 <= i < r@.len() && (#[trigger] r@[i])@ == n,
    {
        proof {
            use_type_invariant(self);
        }
        let mut r: Vec<String> = Vec::new();
        let mut k: usize = 0;
        while k < self.entries.len()
            invariant
                k <= self.entries@.len(),
                r@.len() == k,
                forall|i: int| 0 <= i < k ==> (#[trigger] r@[i])@ == self.entries@[i].name@,
            decreases self.entries@.len() - k,
        {
            r.push(self.entries[k].name.clone());
            k = k + 1;
        }
        proof {
            assert forall|n: Seq<char>| #[trigger] self.map().dom().contains(n) <==> exists|i: int| 0 <= i < r@.len() && (#[trigger] r@[i])@ == n by {
                if self.map().dom().contains(n) {
                    let i = choose|i: int| 0 <= i < self.entries@.len() && (#[trigger] self.entries@[i]).name@ == n;
                    assert(r@[i]@ == n);
                }
                if exists|i: int| 0 <= i < r@.len() && (#[trigger] r@[i])@ == n {
                    let i = choose|i: int| 0 <= i < r@.len() && (#[trigger] r@[i])@ == n;
                    self.lemma_map_at(i);
                }
            }
        }
        r
    }

    /// The symbols in name order.
    pub fn values(&self) -> (r: &Vec<Symbol>)
        ensures
            r@ == self.symbols(),
            sorted_names(self.symbols()),
            forall|i: int| 0 <= i < r@.len() ==> self.map().dom().contains((#[trigger] r@[i]).name@)
                && self.map()[r@[i].name@] == r@[i]@,
            forall|n: Seq<char>| #[trigger] self.map().dom().contains(n) ==> exists|i: int| 0 <= i < r@.len() && (#[trigger] r@[i]).name@ == n,
    {
        proof {
            use_type_invariant(self);
            assert forall|i: int| 0 <= i < self.entries@.len() implies self.map().dom().contains((#[trigger] self.entries@[i]).name@)
                && self.map()[self.entries@[i].name@] == self.entries@[i]@ by {
                self.lemma_map_at(i);
            }
        }
        &self.entries
    }

    /// A copy of this map.
    pub fn duplicate(&self) -> (m: DefMap)
        ensures
            m.symbols().len() == self.symbols().len(),
            forall|i: int| 0 <= i < self.symbols().len() ==> (#[trigger] m.symbols()[i])@ == self.symbols()[i]@,
            m.map() == self.map(),
    {
        proof {
            use_type_invariant(self);
        }
        let mut entries: Vec<Symbol> = Vec::new();
        let mut k: usize = 0;
        while k < self.entries.len()
            invariant
                k <= self.entries@.len(),
                entries@.len() == k,
                forall|i: int| 0 <= i < k ==> (#[trigger] entries@[i])@ == self.entries@[i]@,
            decreases self.entries@.len() - k,
        {
            entries.push(self.entries[k].duplicate());
            k = k + 1;
        }
        proof {
            assert(sorted_names(entries@)) by {
                assert forall|i: int, j: int| 0 <= i < j < entries@.len() implies
                    name_lt((#[trigger] entries@[i]).name@, (#[trigger] entries@[j]).name@) by {
                    assert(name_lt(self.entries@[i].name@, self.entries@[j].name@));
                }
            }
        }
        let m = DefMap { entries };
        proof {
            use_type_invariant(&m);
            assert forall|x: Seq<char>| #[trigger] m.map().dom().contains(x) <==> self.map().dom().contains(x) by {
                if m.map().dom().contains(x) {
                    let i = choose|i: int| 0 <= i < m.entries@.len() && (#[trigger] m.entries@[i]).name@ == x;
                    assert(self.entries@[i].name@ == x);
                }
                if self.map().dom().contains(x) {
                    let i = choose|i: int| 0 <= i < self.entries@.len() && (#[trigger] self.entries@[i]).name@ == x;
                    assert(m.entries@[i].name@ == x);
                }
            }
            assert forall|x: Seq<char>| #[trigger] m.map().dom().contains(x) implies m.map()[x] == self.map()[x] by {
                let i = choose|i: int| 0 <= i < m.entries@.len() && (#[trigger] m.entries@[i]).name@ == x;
                m.lemma_map_at(i);
                self.lemma_map_at(i);
            }
            assert(m.map() =~= self.map());
        }
        m
    }
}

} // verus!
