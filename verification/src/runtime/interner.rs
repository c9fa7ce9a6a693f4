//! Interned names.

use vstd::prelude::*;

verus! {

/// A name, by its place in an [`Interner`].
#[derive(Debug, Clone, Copy, PartialEq, Eq, Hash, Structural)]
pub struct Symbol {
    pub id: usize,
}

impl DeepView for Symbol {
    type V = Symbol;

    open spec fn deep_view(&self) -> Symbol {
        *self
    }
}

impl Symbol {
    /// The symbol of the empty name.
    pub fn empty() -> (r: Symbol)
        ensures
            r == (Symbol { id: 0 }),
    {
        Symbol { id: 0 }
    }
}

/// The place of `name` in `names`, or the length where it does not occur.
pub open spec fn place(names: Seq<Seq<char>>, name: Seq<char>) -> nat
    decreases names.len(),
{
    if names.len() == 0 {
        0
    } else if names[0] == name {
        0
    } else {
        1 + place(names.drop_first(), name)
    }
}

/// The symbol that stands for `name`.
pub open spec fn symbol_of(names: Seq<Seq<char>>, name: Seq<char>) -> Symbol {
    Symbol { id: place(names, name) as usize }
}

/// The name that `sym` stands for; a symbol that was never interned has the
/// empty name.
pub open spec fn name_of(names: Seq<Seq<char>>, sym: Symbol) -> Seq<char> {
    if sym.id < names.len() {
        names[sym.id as int]
    } else {
        seq![]
    }
}

/// The names after `name` has been interned.
pub open spec fn interned(names: Seq<Seq<char>>, name: Seq<char>) -> Seq<Seq<char>> {
    if names.contains(name) {
        names
    } else {
        names.push(name)
    }
}

/// The names after each of `more` has been interned, in order.
pub open spec fn interned_all(names: Seq<Seq<char>>, more: Seq<Seq<char>>) -> Seq<Seq<char>>
    decreases more.len(),
{
    if more.len() == 0 {
        names
    } else {
        interned_all(interned(names, more[0]), more.drop_first())
    }
}

/// A name that is interned is found under its symbol, and names that were there
/// keep theirs.
pub proof fn law_interned_is_found(names: Seq<Seq<char>>, name: Seq<char>, s: Symbol)
    requires
        names.len() < usize::MAX,
    ensures
        name_of(interned(names, name), symbol_of(interned(names, name), name)) == name,
        s.id < names.len() ==> name_of(interned(names, name), s) == name_of(names, s),
        names.contains(name) ==> interned(names, name) == names,
        interned(interned(names, name), name) == interned(names, name),
{
    let more = interned(names, name);
    if !names.contains(name) {
        assert(more[names.len() as int] == name);
    }
    assert(more.contains(name));
    lemma_place(more, name);
}

/// Different names have different symbols.
pub proof fn law_symbols_tell_names_apart(
    names: Seq<Seq<char>>,
    a: Seq<char>,
    b: Seq<char>,
)
    requires
        names.len() <= usize::MAX,
        names.contains(a),
        names.contains(b),
    ensures
        symbol_of(names, a) == symbol_of(names, b) <==> a == b,
{
    lemma_place(names, a);
    lemma_place(names, b);
}

/// `place` is the first occurrence.
pub proof fn lemma_place(names: Seq<Seq<char>>, name: Seq<char>)
    ensures
        place(names, name) <= names.len(),
        place(names, name) < names.len() <==> names.contains(name),
        place(names, name) < names.len() ==> names[place(names, name) as int] == name,
        forall|j: int| 0 <= j < place(names, name) ==> names[j] != name,
    decreases names.len(),
{
    if names.len() > 0 {
        let rest = names.drop_first();
        lemma_place(rest, name);
        if names[0] != name {
            if names.contains(name) {
                let j = choose|j: int| 0 <= j < names.len() && names[j] == name;
                assert(rest[j - 1] == name);
            }
            if rest.contains(name) {
                let j = choose|j: int| 0 <= j < rest.len() && rest[j] == name;
                assert(names[j + 1] == name);
            }
            assert forall|j: int| 0 <= j < place(names, name) implies names[j] != name by {
                if j > 0 {
                    assert(rest[j - 1] != name);
                }
            }
        }
    }
}

/// The first occurrence is the only place with nothing before it.
pub proof fn lemma_place_is(names: Seq<Seq<char>>, name: Seq<char>, i: int)
    requires
        0 <= i < names.len(),
        names[i] == name,
        forall|j: int| 0 <= j < i ==> names[j] != name,
    ensures
        place(names, name) == i,
{
    lemma_place(names, name);
}

/// Interning more names moves no name that was there.
pub proof fn lemma_place_stable(names: Seq<Seq<char>>, more: Seq<Seq<char>>, name: Seq<char>)
    requires
        names.is_prefix_of(more),
        names.contains(name),
    ensures
        more.contains(name),
        place(more, name) == place(names, name),
{
    lemma_place(names, name);
    let p = place(names, name) as int;
    assert(more[p] == name);
    assert forall|j: int| 0 <= j < p implies more[j] != name by {
        assert(names[j] == more[j]);
    }
    lemma_place_is(more, name, p);
}

/// What interning in sequence adds up to.
pub proof fn lemma_interned_all(names: Seq<Seq<char>>, a: Seq<Seq<char>>, b: Seq<Seq<char>>)
    ensures
        names.is_prefix_of(interned_all(names, a)),
        interned_all(names, a + b) == interned_all(interned_all(names, a), b),
        forall|j: int| 0 <= j < a.len() ==> interned_all(names, a).contains(#[trigger] a[j]),
        names.no_duplicates() ==> interned_all(names, a).no_duplicates(),
    decreases a.len(),
{
    if a.len() == 0 {
        assert(a + b =~= b);
    } else {
        let one = interned(names, a[0]);
        assert((a + b).drop_first() =~= a.drop_first() + b);
        lemma_interned_all(one, a.drop_first(), b);
        assert(one.contains(a[0])) by {
            if !names.contains(a[0]) {
                assert(one[names.len() as int] == a[0]);
            }
        }
        let all = interned_all(names, a);
        assert(all.contains(a[0])) by {
            let j = choose|j: int| 0 <= j < one.len() && one[j] == a[0];
            assert(all[j] == a[0]);
        }
        assert forall|j: int| 0 <= j < a.len() implies all.contains(#[trigger] a[j]) by {
            if j > 0 {
                assert(a.drop_first()[j - 1] == a[j]);
            }
        }
    }
}

/// A table of distinct names.
#[derive(Debug, Clone)]
pub struct Interner {
    names: Vec<String>,
}

impl View for Interner {
    type V = Seq<Seq<char>>;

    closed spec fn view(&self) -> Seq<Seq<char>> {
        self.names.deep_view()
    }
}

impl DeepView for Interner {
    type V = Seq<Seq<char>>;

    open spec fn deep_view(&self) -> Seq<Seq<char>> {
        self@
    }
}

impl Interner {
    /// A table that holds the empty name alone.
    pub fn new() -> (r: Interner)
        ensures
            r@ == seq![Seq::<char>::empty()],
            r@.no_duplicates(),
    {
        let mut names: Vec<String> = Vec::new();
        names.push(String::new());
        let r = Interner { names };
        assert(r@ =~= seq![Seq::<char>::empty()]);
        r
    }

    /// The name that `sym` stands for, empty where `sym` was never interned.
    pub fn get(&self, sym: Symbol) -> (r: String)
        ensures
            r@ == name_of(self@, sym),
    {
        if sym.id < self.names.len() {
            self.names[sym.id].clone()
        } else {
            String::new()
        }
    }

    /// The symbol for `name`, which is added where it is new.
    pub fn insert(&mut self, name: &str) -> (r: Symbol)
        ensures
            final(self)@ == interned(old(self)@, name@),
            final(self)@ == interned_all(old(self)@, seq![name@]),
            r == symbol_of(final(self)@, name@),
            r.id < final(self)@.len(),
            final(self)@.contains(name@),
            name_of(final(self)@, r) == name@,
            old(self)@.no_duplicates() ==> final(self)@.no_duplicates(),
    {
        let s = name.to_owned();
        proof {
            let one = seq![name@];
            assert(one.drop_first() =~= Seq::<Seq<char>>::empty());
            assert(interned_all(interned(self@, name@), one.drop_first()) == interned(
                self@,
                name@,
            ));
        }
        let mut i: usize = 0;
        while i < self.names.len()
            invariant
                interned_all(old(self)@, seq![name@]) == interned(old(self)@, name@),
                s@ == name@,
                self@ == old(self)@,
                self@ == self.names.deep_view(),
                i <= self.names@.len(),
                forall|j: int| 0 <= j < i ==> self@[j] != name@,
            decreases self.names@.len() - i,
        {
            if self.names[i] == s {
                proof {
                    assert(self@[i as int] == name@);
                    assert(self@.contains(name@));
                    lemma_place_is(self@, name@, i as int);
                }
                return Symbol { id: i };
            }
            i = i + 1;
        }
        let ghost before = self@;
        proof {
            assert(!before.contains(name@));
        }
        self.names.push(s);
        proof {
            assert(self@ =~= before.push(name@));
            assert(self@[i as int] == name@);
            lemma_place_is(self@, name@, i as int);
        }
        Symbol { id: i }
    }
}

} // verus!
