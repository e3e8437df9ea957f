//! A write-once symbol table mapping names to 32-bit values. Two independent
//! instances exist during assembly — one for constants, one for labels — and
//! never merge. The table is an association list in declaration order; a
//! duplicate declaration is rejected by the resolver before insertion.

use vstd::prelude::*;

verus! {

/// A name known to a table.
pub open spec fn tbl_contains(t: Seq<(Seq<char>, u32)>, name: Seq<char>) -> bool {
    exists|i: int| 0 <= i < t.len() && (#[trigger] t[i]).0 == name
}

/// The value of the first entry for `name`. Tables built by the resolvers
/// have unique names, so the first entry is the only one.
pub open spec fn tbl_lookup(t: Seq<(Seq<char>, u32)>, name: Seq<char>) -> u32
    decreases t.len(),
{
    if t.len() == 0 {
        0
    } else if t[0].0 == name {
        t[0].1
    } else {
        tbl_lookup(t.drop_first(), name)
    }
}

/// If the first entry for `name` stands at position `i`, the lookup yields
/// that entry's value.
pub proof fn lemma_tbl_lookup_at(t: Seq<(Seq<char>, u32)>, name: Seq<char>, i: int)
    requires
        0 <= i < t.len(),
        t[i].0 == name,
        forall|j: int| 0 <= j < i ==> (#[trigger] t[j]).0 != name,
    ensures
        tbl_lookup(t, name) == t[i].1,
    decreases i,
{
    if i > 0 {
        let rest = t.drop_first();
        assert(forall|j: int| 0 <= j < i - 1 ==> (#[trigger] rest[j]).0 != name);
        lemma_tbl_lookup_at(rest, name, i - 1);
    }
}

/// Appending an entry leaves the lookup of an already-present name alone:
/// lookup takes the first match.
pub proof fn lemma_tbl_lookup_push(t: Seq<(Seq<char>, u32)>, e: (Seq<char>, u32), name: Seq<char>)
    requires
        tbl_contains(t, name),
    ensures
        tbl_contains(t.push(e), name),
        tbl_lookup(t.push(e), name) == tbl_lookup(t, name),
    decreases t.len(),
{
    let i = choose|i: int| 0 <= i < t.len() && (#[trigger] t[i]).0 == name;
    assert(t.push(e)[i] == t[i]);
    if t[0].0 == name {
        assert(t.push(e)[0] == t[0]);
    } else {
        assert(t.drop_first()[i - 1] == t[i]);
        assert(tbl_contains(t.drop_first(), name));
        lemma_tbl_lookup_push(t.drop_first(), e, name);
        assert(t.push(e).drop_first() =~= t.drop_first().push(e));
    }
}

/// Appending an entry for a fresh name makes it found, at the new value.
pub proof fn lemma_tbl_lookup_push_new(t: Seq<(Seq<char>, u32)>, name: Seq<char>, value: u32)
    requires
        !tbl_contains(t, name),
    ensures
        tbl_contains(t.push((name, value)), name),
        tbl_lookup(t.push((name, value)), name) == value,
    decreases t.len(),
{
    let pushed = t.push((name, value));
    assert(pushed[t.len() as int].0 == name);
    if t.len() == 0 {
        assert(pushed[0].0 == name);
    } else {
        assert(t[0].0 != name);
        assert(forall|j: int|
            0 <= j < t.drop_first().len() ==> #[trigger] t.drop_first()[j] == t[j + 1]);
        assert(!tbl_contains(t.drop_first(), name));
        lemma_tbl_lookup_push_new(t.drop_first(), name, value);
        assert(pushed.drop_first() =~= t.drop_first().push((name, value)));
    }
}

/// A symbol table: names with their resolved values, in declaration order.
pub struct SymbolTable {
    pub entries: Vec<(String, u32)>,
}

impl View for SymbolTable {
    type V = Seq<(Seq<char>, u32)>;

    open spec fn view(&self) -> Seq<(Seq<char>, u32)> {
        self.entries@.map_values(|p: (String, u32)| (p.0@, p.1))
    }
}

impl SymbolTable {
    /// An empty table.
    pub fn new() -> (r: SymbolTable)
        ensures
            r@ == Seq::<(Seq<char>, u32)>::empty(),
    {
        let r = SymbolTable { entries: Vec::new() };
        proof {
            assert(r@ =~= Seq::<(Seq<char>, u32)>::empty());
        }
        r
    }

    /// Whether `word` names an entry.
    pub fn contains(&self, word: &str) -> (r: bool)
        ensures
            r == tbl_contains(self@, word@),
    {
        let n = self.entries.len();
        let mut i: usize = 0;
        while i < n
            invariant
                0 <= i <= n,
                n == self.entries.len(),
                forall|j: int| 0 <= j < i ==> (#[trigger] self@[j]).0 != word@,
            decreases n - i,
        {
            if crate::text::str_eq(self.entries[i].0.as_str(), word) {
                assert(self@[i as int].0 == word@);
                return true;
            }
            i += 1;
        }
        false
    }

    /// The value of `word`, if it names an entry.
    pub fn get(&self, word: &str) -> (r: Option<u32>)
        ensures
            r is Some <==> tbl_contains(self@, word@),
            r is Some ==> r.unwrap() == tbl_lookup(self@, word@),
    {
        let n = self.entries.len();
        let mut i: usize = 0;
        while i < n
            invariant
                0 <= i <= n,
                n == self.entries.len(),
                forall|j: int| 0 <= j < i ==> (#[trigger] self@[j]).0 != word@,
            decreases n - i,
        {
            if crate::text::str_eq(self.entries[i].0.as_str(), word) {
                proof {
                    assert(self@[i as int].0 == word@);
                    lemma_tbl_lookup_at(self@, word@, i as int);
                }
                return Some(self.entries[i].1);
            }
            i += 1;
        }
        None
    }

    /// Appends an entry. The resolvers reject a duplicate name before ever
    /// calling this, so declaration order is kept and names stay unique.
    pub fn insert(&mut self, name: String, value: u32)
        ensures
            final(self)@ == old(self)@.push((name@, value)),
    {
        let ghost before = self@;
        let ghost namev = name@;
        self.entries.push((name, value));
        proof {
            assert(self@ =~= before.push((namev, value)));
        }
    }
}

} // verus!
