//! Name tables: which tape cell belongs to which name.

use vstd::prelude::*;
use vstd::string::*;

verus! {

/// One binding of a name to the cell it starts at.
pub struct Symbol {
    pub name: String,
    pub cell: usize,
}

/// An ordered list of bindings, oldest first.
pub struct Table {
    entries: Vec<Symbol>,
}

/// A binding as plain data: the name's characters and the cell.
pub type Binding = (Seq<char>, int);

/// The cell bound to `name` by the oldest binding for it, if any.
pub open spec fn lookup(entries: Seq<Binding>, name: Seq<char>) -> Option<int>
    decreases entries.len(),
{
    if entries.len() == 0 {
        None
    } else if entries[0].0 == name {
        Some(entries[0].1)
    } else {
        lookup(entries.skip(1), name)
    }
}

/// `entries` without the oldest binding for `name`.
pub open spec fn without(entries: Seq<Binding>, name: Seq<char>) -> Seq<Binding>
    decreases entries.len(),
{
    if entries.len() == 0 {
        entries
    } else if entries[0].0 == name {
        entries.skip(1)
    } else {
        seq![entries[0]] + without(entries.skip(1), name)
    }
}

/// The name of the newest binding that starts at `cell`, if any.
pub open spec fn owner(entries: Seq<Binding>, cell: int) -> Option<Seq<char>>
    decreases entries.len(),
{
    if entries.len() == 0 {
        None
    } else if entries.last().1 == cell {
        Some(entries.last().0)
    } else {
        owner(entries.drop_last(), cell)
    }
}

impl View for Table {
    type V = Seq<Binding>;

    closed spec fn view(&self) -> Seq<Binding> {
        Seq::new(self.entries.len() as nat, |i: int| (self.entries[i].name@, self.entries[i].cell as int))
    }
}

impl Table {
    /// A table with no bindings.
    pub fn new() -> (t: Table)
        ensures
            t@ == Seq::<Binding>::empty(),
    {
        let t = Table { entries: Vec::new() };
        assert(t@ =~= Seq::<Binding>::empty());
        t
    }

    /// Number of bindings.
    pub fn len(&self) -> (n: usize)
        ensures
            n == self@.len(),
    {
        self.entries.len()
    }

    /// The cell bound to `name`.
    pub fn get(&self, name: &str) -> (r: Option<usize>)
        ensures
            r is Some <==> lookup(self@, name@) is Some,
            r matches Some(c) ==> lookup(self@, name@) == Some(c as int),
    {
        let key = name.to_owned();
        let mut i: usize = 0;
        assert(self@.skip(0) =~= self@);
        while i < self.entries.len()
            invariant
                i <= self.entries.len(),
                key@ == name@,
                lookup(self@, name@) == lookup(self@.skip(i as int), name@),
            decreases self.entries.len() - i,
        {
            if self.entries[i].name == key {
                assert(self@.skip(i as int)[0] == self@[i as int]);
                return Some(self.entries[i].cell);
            }
            assert(self@.skip(i as int).skip(1) =~= self@.skip(i as int + 1));
            i += 1;
        }
        None
    }

    /// Adds a binding as the newest.
    pub fn insert(&mut self, name: &str, cell: usize)
        ensures
            final(self)@ == old(self)@.push((name@, cell as int)),
    {
        self.entries.push(Symbol { name: name.to_owned(), cell });
        assert(self@ =~= old(self)@.push((name@, cell as int)));
    }

    /// Removes the oldest binding for `name` and returns its cell.
    pub fn remove(&mut self, name: &str) -> (r: Option<usize>)
        ensures
            r is Some <==> lookup(old(self)@, name@) is Some,
            r matches Some(c) ==> lookup(old(self)@, name@) == Some(c as int),
            final(self)@ == without(old(self)@, name@),
    {
        let key = name.to_owned();
        let mut i: usize = 0;
        assert(self@.skip(0) =~= self@);
        assert(self@.take(0) + without(self@, name@) =~= without(self@, name@));
        while i < self.entries.len()
            invariant
                i <= self.entries.len(),
                key@ == name@,
                *self == *old(self),
                lookup(self@, name@) == lookup(self@.skip(i as int), name@),
                without(self@, name@) == self@.take(i as int) + without(self@.skip(i as int), name@),
            decreases self.entries.len() - i,
        {
            if self.entries[i].name == key {
                assert(self@.skip(i as int)[0] == self@[i as int]);
                let gone = self.entries.remove(i);
                assert(self@ =~= old(self)@.take(i as int) + old(self)@.skip(i as int).skip(1));
                return Some(gone.cell);
            }
            assert(self@.skip(i as int).skip(1) =~= self@.skip(i as int + 1));
            assert(self@.take(i as int) + (seq![self@[i as int]] + without(self@.skip(i as int + 1), name@))
                =~= self@.take(i as int + 1) + without(self@.skip(i as int + 1), name@));
            i += 1;
        }
        assert(self@.take(i as int) =~= self@);
        None
    }

    /// Length in bytes of the name of the newest binding that starts at `cell`.
    pub fn byte_len_at(&self, cell: usize) -> (r: Option<usize>)
        ensures
            r is Some <==> owner(self@, cell as int) is Some,
            r matches Some(n) ==> n == vstd::utf8::encode_utf8(owner(self@, cell as int)->0).len(),
    {
        let mut i: usize = self.entries.len();
        assert(self@.take(i as int) =~= self@);
        while i > 0
            invariant
                i <= self.entries.len(),
                owner(self@, cell as int) == owner(self@.take(i as int), cell as int),
            decreases i,
        {
            i -= 1;
            assert(self@.take(i as int + 1).last() == self@[i as int]);
            if self.entries[i].cell == cell {
                let text = self.entries[i].name.as_str();
                assert(owner(self@, cell as int) == Some(text@));
                assert(text.spec_bytes() == vstd::utf8::encode_utf8(text@));
                return Some(text.as_bytes().len());
            }
            assert(self@.take(i as int + 1).drop_last() =~= self@.take(i as int));
        }
        None
    }
}

/// A name that `lookup` finds is the name of some binding with that cell.
pub proof fn lemma_lookup_member(entries: Seq<Binding>, name: Seq<char>)
    requires
        lookup(entries, name) is Some,
    ensures
        exists|k: int| 0 <= k < entries.len() && entries[k] == (name, lookup(entries, name)->0),
    decreases entries.len(),
{
    if entries[0].0 == name {
        assert(entries[0] == (name, lookup(entries, name)->0));
    } else {
        lemma_lookup_member(entries.skip(1), name);
        let k = choose|k: int|
            0 <= k < entries.skip(1).len() && entries.skip(1)[k] == (
                name,
                lookup(entries.skip(1), name)->0,
            );
        assert(entries[k + 1] == (name, lookup(entries, name)->0));
    }
}

/// A name that `lookup` does not find is the name of no binding.
pub proof fn lemma_lookup_absent(entries: Seq<Binding>, name: Seq<char>)
    requires
        lookup(entries, name) is None,
    ensures
        forall|k: int| 0 <= k < entries.len() ==> (#[trigger] entries[k]).0 != name,
    decreases entries.len(),
{
    if entries.len() > 0 {
        lemma_lookup_absent(entries.skip(1), name);
        assert forall|k: int| 0 <= k < entries.len() implies (#[trigger] entries[k]).0 != name by {
            if k > 0 {
                assert(entries[k] == entries.skip(1)[k - 1]);
            }
        }
    }
}

/// The name of any binding is found by `lookup`.
pub proof fn lemma_lookup_present(entries: Seq<Binding>, k: int)
    requires
        0 <= k < entries.len(),
    ensures
        lookup(entries, entries[k].0) is Some,
    decreases entries.len(),
{
    if entries[0].0 != entries[k].0 {
        assert(entries[k] == entries.skip(1)[k - 1]);
        lemma_lookup_present(entries.skip(1), k - 1);
    }
}

/// The cell that `owner` reports belongs to a binding of the name it
/// reports.
pub proof fn lemma_owner_member(entries: Seq<Binding>, cell: int)
    requires
        owner(entries, cell) is Some,
    ensures
        exists|k: int| 0 <= k < entries.len() && entries[k] == (owner(entries, cell)->0, cell),
    decreases entries.len(),
{
    if entries.last().1 == cell {
        assert(entries[entries.len() - 1] == (owner(entries, cell)->0, cell));
    } else {
        lemma_owner_member(entries.drop_last(), cell);
        let k = choose|k: int|
            0 <= k < entries.drop_last().len() && entries.drop_last()[k] == (
                owner(entries.drop_last(), cell)->0,
                cell,
            );
        assert(entries[k] == (owner(entries, cell)->0, cell));
    }
}

/// Removing a name that only the newest binding carries removes that
/// binding.
pub proof fn lemma_without_last(entries: Seq<Binding>)
    requires
        entries.len() > 0,
        forall|i: int, j: int| 0 <= i < j < entries.len() ==> entries[i].0 != entries[j].0,
    ensures
        without(entries, entries.last().0) == entries.drop_last(),
    decreases entries.len(),
{
    let name = entries.last().0;
    if entries.len() == 1 {
        assert(without(entries, name) =~= entries.drop_last());
    } else {
        assert(entries[0].0 != entries[entries.len() - 1].0);
        let rest = entries.skip(1);
        assert(rest.last() == entries.last());
        assert forall|i: int, j: int| 0 <= i < j < rest.len() implies rest[i].0 != rest[j].0 by {
            assert(rest[i] == entries[i + 1]);
            assert(rest[j] == entries[j + 1]);
        }
        lemma_without_last(rest);
        assert(seq![entries[0]] + rest.drop_last() =~= entries.drop_last());
    }
}

/// Every cell that some binding starts at has an owner.
pub proof fn lemma_owner_present(entries: Seq<Binding>, k: int)
    requires
        0 <= k < entries.len(),
    ensures
        owner(entries, entries[k].1) is Some,
    decreases entries.len(),
{
    if entries.last().1 != entries[k].1 {
        assert(entries.drop_last()[k] == entries[k]);
        lemma_owner_present(entries.drop_last(), k);
    }
}

/// Where no name is bound twice, `lookup` finds each binding by its name.
pub proof fn lemma_lookup_own(entries: Seq<Binding>, k: int)
    requires
        0 <= k < entries.len(),
        forall|i: int, j: int| 0 <= i < j < entries.len() ==> entries[i].0 != entries[j].0,
    ensures
        lookup(entries, entries[k].0) == Some(entries[k].1),
    decreases entries.len(),
{
    if k > 0 {
        assert(entries[0].0 != entries[k].0);
        let rest = entries.skip(1);
        assert forall|i: int, j: int| 0 <= i < j < rest.len() implies rest[i].0 != rest[j].0 by {
            assert(rest[i] == entries[i + 1]);
            assert(rest[j] == entries[j + 1]);
        }
        assert(rest[k - 1] == entries[k]);
        lemma_lookup_own(rest, k - 1);
    }
}

/// What `lookup` finds after one more binding was added.
pub proof fn lemma_lookup_push(vars: Seq<Binding>, b: Binding, name: Seq<char>)
    ensures
        lookup(vars.push(b), name) == if lookup(vars, name) is Some {
            lookup(vars, name)
        } else if b.0 == name {
            Some(b.1)
        } else {
            None
        },
    decreases vars.len(),
{
    let longer = vars.push(b);
    if vars.len() == 0 {
        assert(longer.skip(1).len() == 0);
        assert(lookup(longer.skip(1), name) is None);
        assert(longer[0] == b);
    } else {
        assert(longer.skip(1) =~= vars.skip(1).push(b));
        assert(longer[0] == vars[0]);
        if vars[0].0 != name {
            lemma_lookup_push(vars.skip(1), b, name);
        }
    }
}

} // verus!
