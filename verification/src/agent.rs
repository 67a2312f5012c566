//! The agent: the interner that gives each distinct string a number.
use vstd::prelude::*;
use crate::text::string_of_str;

verus! {

/// Holds the interned strings; a string's number is its index in the table.
pub struct Agent {
    pub string_table: Vec<String>,
}

/// The table of `strings` as character sequences.
pub open spec fn table_view(strings: Seq<String>) -> Seq<Seq<char>> {
    strings.map_values(|x: String| x@)
}

/// No string occurs twice in `table`.
pub open spec fn distinct(table: Seq<Seq<char>>) -> bool {
    forall|i: int, j: int| 0 <= i < table.len() && 0 <= j < table.len() && i != j ==> table[i] != table[j]
}

/// The table after interning `s`: unchanged where `s` is in it already,
/// else with `s` added at the end.
pub open spec fn intern_table(table: Seq<Seq<char>>, s: Seq<char>) -> Seq<Seq<char>> {
    if table.contains(s) { table } else { table.push(s) }
}

/// `later` holds every string of `earlier` at the same number.
pub open spec fn extends(earlier: Seq<Seq<char>>, later: Seq<Seq<char>>) -> bool {
    &&& earlier.len() <= later.len()
    &&& forall|i: int| 0 <= i < earlier.len() ==> #[trigger] later[i] == earlier[i]
}

/// `i` is the first number at which `table` holds `s`.
pub open spec fn first_at(table: Seq<Seq<char>>, s: Seq<char>, i: int) -> bool {
    &&& 0 <= i < table.len()
    &&& table[i] == s
    &&& forall|j: int| 0 <= j < i ==> table[j] != s
}

/// The number that interning `s` gives with the table `table`: the first
/// where `table` holds `s`, else the end of the table.
pub open spec fn intern_id(table: Seq<Seq<char>>, s: Seq<char>) -> usize {
    if table.contains(s) {
        (choose|i: int| first_at(table, s, i)) as usize
    } else {
        table.len() as usize
    }
}

proof fn lemma_first_below(table: Seq<Seq<char>>, s: Seq<char>, w: int)
    requires
        0 <= w < table.len(),
        table[w] == s,
    ensures
        exists|i: int| first_at(table, s, i),
    decreases w,
{
    if exists|j: int| 0 <= j < w && table[j] == s {
        let j = choose|j: int| 0 <= j < w && table[j] == s;
        lemma_first_below(table, s, j);
    } else {
        assert(first_at(table, s, w));
    }
}

/// Where `table` holds `s`, the number interning gives is the first at which
/// it holds it.
pub proof fn lemma_intern_id_first(table: Seq<Seq<char>>, s: Seq<char>)
    requires
        table.contains(s),
        table.len() <= usize::MAX,
    ensures
        first_at(table, s, intern_id(table, s) as int),
        forall|i: int| #[trigger] first_at(table, s, i) ==> i == intern_id(table, s),
{
    let w = choose|w: int| 0 <= w < table.len() && table[w] == s;
    lemma_first_below(table, s, w);
    let i = choose|i: int| first_at(table, s, i);
    assert(i as usize as int == i);
    assert forall|k: int| #[trigger] first_at(table, s, k) implies k == intern_id(table, s) by {
        if k < i {
            assert(table[k] != s);
        } else if i < k {
            assert(table[i] != s);
        }
    }
}

/// Interning keeps the numbers it gave: the old table is the start of the
/// new one, the interned string is at the number interning gives it, and a
/// table that held no string twice still holds none twice.
pub proof fn lemma_intern_keeps_numbers(table: Seq<Seq<char>>, s: Seq<char>)
    requires
        table.len() < usize::MAX,
    ensures
        intern_table(table, s).len() >= table.len(),
        intern_table(table, s).subrange(0, table.len() as int) == table,
        distinct(table) ==> distinct(intern_table(table, s)),
        intern_id(table, s) < intern_table(table, s).len(),
        intern_table(table, s)[intern_id(table, s) as int] == s,
{
    if table.contains(s) {
        assert(table.subrange(0, table.len() as int) =~= table);
        lemma_intern_id_first(table, s);
    } else {
        let t = table.push(s);
        assert(t.subrange(0, table.len() as int) =~= table);
        if distinct(table) {
            lemma_push_new_distinct(table, s);
        }
    }
}

proof fn lemma_push_new_distinct(table: Seq<Seq<char>>, s: Seq<char>)
    requires
        distinct(table),
        !table.contains(s),
    ensures
        distinct(table.push(s)),
{
    let t = table.push(s);
    assert forall|i: int, j: int| 0 <= i < t.len() && 0 <= j < t.len() && i != j implies t[i] != t[j] by {
        if i == table.len() && j < table.len() {
            assert(table[j] != s) by {
                if table[j] == s {
                    assert(table.contains(s));
                }
            }
        } else if j == table.len() && i < table.len() {
            assert(table[i] != s) by {
                if table[i] == s {
                    assert(table.contains(s));
                }
            }
        }
    }
}

/// Interning a string a second time changes nothing and gives the number
/// that the first time gave.
pub proof fn lemma_intern_idempotent(table: Seq<Seq<char>>, s: Seq<char>)
    requires
        table.len() < usize::MAX,
    ensures
        intern_table(intern_table(table, s), s) == intern_table(table, s),
        intern_id(intern_table(table, s), s) == intern_id(table, s),
{
    lemma_intern_keeps_numbers(table, s);
    let t = intern_table(table, s);
    let id = intern_id(table, s);
    assert(t[id as int] == s);
    assert(t.contains(s));
    lemma_intern_id_first(t, s);
    if table.contains(s) {
        lemma_intern_id_first(table, s);
    } else {
        assert forall|j: int| 0 <= j < id implies t[j] != s by {
            assert(t[j] == table[j]);
            if table[j] == s {
                assert(table.contains(s));
            }
        }
        assert(first_at(t, s, id as int));
    }
}

/// Two different strings get different numbers, and a string keeps its
/// number when another is interned after it.
pub proof fn lemma_intern_distinct(table: Seq<Seq<char>>, s1: Seq<char>, s2: Seq<char>)
    requires
        table.len() + 1 < usize::MAX,
        s1 != s2,
    ensures
        intern_id(table, s1) != intern_id(intern_table(table, s1), s2),
        intern_id(intern_table(intern_table(table, s1), s2), s1) == intern_id(table, s1),
{
    let t1 = intern_table(table, s1);
    lemma_intern_keeps_numbers(table, s1);
    lemma_intern_keeps_numbers(t1, s2);
    let t2 = intern_table(t1, s2);
    let id1 = intern_id(table, s1);
    assert(t2[id1 as int] == t1.subrange(0, t1.len() as int)[id1 as int]);
    assert(t2[id1 as int] == s1);
    assert(t2.contains(s1));
    lemma_intern_idempotent(table, s1);
    lemma_intern_id_first(t1, s1);
    lemma_intern_id_first(t2, s1);
    assert forall|j: int| 0 <= j < id1 implies t2[j] != s1 by {
        assert(t2[j] == t1.subrange(0, t1.len() as int)[j]);
        assert(t1[j] != s1);
    }
    assert(first_at(t2, s1, id1 as int));
}

impl Agent {
    /// The interned strings, in order of their numbers.
    pub open spec fn table(&self) -> Seq<Seq<char>> {
        table_view(self.string_table@)
    }

    /// No string is in the table twice: true of an agent made by `new` and
    /// changed only by `intern_string`.
    pub open spec fn wf(&self) -> bool {
        distinct(self.table())
    }

    /// An agent that has interned nothing.
    pub fn new() -> (a: Agent)
        ensures
            a.wf(),
            a.table() == Seq::<Seq<char>>::empty(),
    {
        let a = Agent { string_table: Vec::new() };
        assert(a.table() =~= Seq::<Seq<char>>::empty());
        a
    }

    /// The number of `s`: the index where the table holds it, after adding
    /// it at the end if it was not there.
    pub fn intern_string(&mut self, s: &str) -> (id: usize)
        ensures
            old(self).wf() ==> final(self).wf(),
            final(self).table() == intern_table(old(self).table(), s@),
            id == intern_id(old(self).table(), s@),
            extends(old(self).table(), final(self).table()),
            id < final(self).table().len(),
            final(self).table()[id as int] == s@,
    {
        let key = string_of_str(s);
        let n = self.string_table.len();
        let mut i: usize = 0;
        while i < n
            invariant
                n == self.string_table@.len(),
                self.string_table@ == old(self).string_table@,
                i <= n,
                key@ == s@,
                forall|j: int| 0 <= j < i ==> self.table()[j] != s@,
            decreases n - i,
        {
            if self.string_table[i] == key {
                proof {
                    let t = self.table();
                    assert(t[i as int] == s@);
                    assert(t.contains(s@));
                    assert(first_at(t, s@, i as int));
                    lemma_intern_id_first(t, s@);
                }
                return i;
            }
            i += 1;
        }
        assert(!old(self).table().contains(s@));
        proof {
            if old(self).wf() {
                lemma_push_new_distinct(old(self).table(), s@);
            }
        }
        self.string_table.push(key);
        assert(self.table() =~= old(self).table().push(s@));
        assert(extends(old(self).table(), self.table()));
        n
    }
}

} // verus!
