use vstd::prelude::*;

use crate::ast::types as ast_types;

verus! {

/// The category a global name resolves to: a constant-like value
/// (`Mono`) or a tick-dependent one (`Lifted`).
#[derive(Debug, Clone, Copy, PartialEq)]
pub enum Type<'a> {
    Mono(TypeMono<'a>),
    Lifted(TypeLifted<'a>),
}

/// Constant-like categories: plain values (helper functions) and
/// construction arguments.
#[derive(Debug, Clone, Copy, PartialEq)]
pub enum TypeMono<'a> {
    Type(MaybeType<'a>),
    Args(MaybeType<'a>),
}

/// Tick-dependent categories: registers (cells) and per-tick signals.
#[derive(Debug, Clone, Copy, PartialEq)]
pub enum TypeLifted<'a> {
    Cell(MaybeType<'a>),
    Signal(TypeSignal<'a>),
}

/// The per-tick signals: locals, inputs and outputs.
#[derive(Debug, Clone, Copy, PartialEq)]
pub enum TypeSignal<'a> {
    Local(MaybeType<'a>),
    Input(MaybeType<'a>),
    Output(MaybeType<'a>),
}

/// A value type that is either still unknown or resolved to a declared
/// surface type.
#[derive(Debug, Clone, Copy, PartialEq)]
pub enum MaybeType<'a> {
    Unresolved,
    Resolved(&'a ast_types::Type),
}

/// The lifted categories without their payload, as carried by errors.
#[derive(Debug, Clone, Copy, PartialEq, Eq, Structural)]
pub enum LiftedCategory {
    Cell,
    Local,
    Input,
    Output,
}

/// The payload-free category of a lifted type.
pub open spec fn spec_lifted_category(t: TypeLifted) -> LiftedCategory {
    match t {
        TypeLifted::Cell(_) => LiftedCategory::Cell,
        TypeLifted::Signal(TypeSignal::Local(_)) => LiftedCategory::Local,
        TypeLifted::Signal(TypeSignal::Input(_)) => LiftedCategory::Input,
        TypeLifted::Signal(TypeSignal::Output(_)) => LiftedCategory::Output,
    }
}

impl<'a> TypeLifted<'a> {
    /// The payload-free category, used when reporting an illegal read.
    pub fn category(&self) -> (r: LiftedCategory)
        ensures
            r == spec_lifted_category(*self),
    {
        match self {
            TypeLifted::Cell(_) => LiftedCategory::Cell,
            TypeLifted::Signal(TypeSignal::Local(_)) => LiftedCategory::Local,
            TypeLifted::Signal(TypeSignal::Input(_)) => LiftedCategory::Input,
            TypeLifted::Signal(TypeSignal::Output(_)) => LiftedCategory::Output,
        }
    }
}

impl<'a> Type<'a> {
    /// A local whose type is still to be inferred.
    pub fn unresolved() -> (r: Type<'a>)
        ensures
            r == Type::Mono(TypeMono::Type(MaybeType::Unresolved)),
    {
        Type::Mono(TypeMono::Type(MaybeType::Unresolved))
    }

    /// A register whose type is still to be inferred.
    pub fn unresolved_cell() -> (r: Type<'a>)
        ensures
            r == Type::Lifted(TypeLifted::Cell(MaybeType::Unresolved)),
    {
        Type::Lifted(TypeLifted::Cell(MaybeType::Unresolved))
    }

    /// A plain value of a known type, as a helper function's result.
    pub fn resolved(ty: &'a ast_types::Type) -> (r: Type<'a>)
        ensures
            r == Type::Mono(TypeMono::Type(MaybeType::Resolved(ty))),
    {
        Type::Mono(TypeMono::Type(MaybeType::Resolved(ty)))
    }

    /// The category of a register with its declared type.
    pub fn from_cell(ty: &'a ast_types::Type) -> (r: Type<'a>)
        ensures
            r == Type::Lifted(TypeLifted::Cell(MaybeType::Resolved(ty))),
    {
        Type::Lifted(TypeLifted::Cell(MaybeType::Resolved(ty)))
    }

    /// The category of a declared input signal.
    pub fn from_input(ty: &'a ast_types::Type) -> (r: Type<'a>)
        ensures
            r == Type::Lifted(TypeLifted::Signal(TypeSignal::Input(MaybeType::Resolved(ty)))),
    {
        Type::Lifted(TypeLifted::Signal(TypeSignal::Input(MaybeType::Resolved(ty))))
    }

    /// The category of a declared output signal.
    pub fn from_output(ty: &'a ast_types::Type) -> (r: Type<'a>)
        ensures
            r == Type::Lifted(TypeLifted::Signal(TypeSignal::Output(MaybeType::Resolved(ty)))),
    {
        Type::Lifted(TypeLifted::Signal(TypeSignal::Output(MaybeType::Resolved(ty))))
    }

    /// The category of a construction argument.
    pub fn from_args(ty: &'a ast_types::Type) -> (r: Type<'a>)
        ensures
            r == Type::Mono(TypeMono::Args(MaybeType::Resolved(ty))),
    {
        Type::Mono(TypeMono::Args(MaybeType::Resolved(ty)))
    }

    /// The category of a combinational equation's left-hand side before
    /// outputs are reclassified.
    pub fn from_local() -> (r: Type<'a>)
        ensures
            r == Type::Lifted(TypeLifted::Signal(TypeSignal::Local(MaybeType::Unresolved))),
    {
        Type::Lifted(TypeLifted::Signal(TypeSignal::Local(MaybeType::Unresolved)))
    }
}

/// The global symbol table: each declared name with its category.
/// Entries are kept with pairwise distinct names.
pub struct VarEnv<'a> {
    pub entries: Vec<(String, Type<'a>)>,
}

/// The map described by a sequence of (name, category) entries,
/// later entries winning.
pub open spec fn entries_map<'a>(s: Seq<(String, Type<'a>)>) -> Map<Seq<char>, Type<'a>>
    decreases s,
{
    if s.len() == 0 {
        Map::empty()
    } else {
        entries_map(s.drop_last()).insert(s.last().0@, s.last().1)
    }
}

impl<'a> VarEnv<'a> {
    /// Entry names are pairwise distinct.
    pub open spec fn wf(self) -> bool {
        forall|i: int, j: int|
            0 <= i < j < self.entries@.len() ==> self.entries@[i].0@ != self.entries@[j].0@
    }

    /// The symbol table as a map from name to category.
    pub open spec fn as_map(self) -> Map<Seq<char>, Type<'a>> {
        entries_map(self.entries@)
    }

    /// An empty symbol table.
    pub fn new() -> (r: VarEnv<'a>)
        ensures
            r.wf(),
            r.as_map() == Map::<Seq<char>, Type<'a>>::empty(),
            r.entries@.len() == 0,
    {
        VarEnv { entries: Vec::new() }
    }

    /// The position of a name among the entries, if present.
    fn index_of(&self, name: &String) -> (r: Option<usize>)
        requires
            self.wf(),
        ensures
            match r {
                Some(i) => i < self.entries@.len() && self.entries@[i as int].0@ == name@
                    && self.as_map().dom().contains(name@)
                    && self.as_map()[name@] == self.entries@[i as int].1,
                None => !self.as_map().dom().contains(name@),
            },
    {
        proof {
            lemma_entries_map_dom(self.entries@);
        }
        let n = self.entries.len();
        let mut i: usize = 0;
        while i < n
            invariant
                self.wf(),
                n == self.entries@.len(),
                i <= n,
                forall|j: int| 0 <= j < i ==> self.entries@[j].0@ != name@,
            decreases n - i,
        {
            if self.entries[i].0.eq(name) {
                proof {
                    lemma_entries_map_at(self.entries@, i as int);
                }
                return Some(i);
            }
            i = i + 1;
        }
        None
    }

    /// Whether a name is declared.
    pub fn contains(&self, name: &String) -> (r: bool)
        requires
            self.wf(),
        ensures
            r == self.as_map().dom().contains(name@),
    {
        self.index_of(name).is_some()
    }

    /// The category of a declared name.
    pub fn get(&self, name: &String) -> (r: Option<Type<'a>>)
        requires
            self.wf(),
        ensures
            match r {
                Some(t) => self.as_map().dom().contains(name@) && self.as_map()[name@] == t,
                None => !self.as_map().dom().contains(name@),
            },
    {
        match self.index_of(name) {
            Some(i) => Some(self.entries[i].1),
            None => None,
        }
    }

    /// Declare a fresh name.
    pub fn insert(&mut self, name: String, ty: Type<'a>)
        requires
            old(self).wf(),
            !old(self).as_map().dom().contains(name@),
        ensures
            final(self).wf(),
            final(self).as_map() == old(self).as_map().insert(name@, ty),
            final(self).entries@ == old(self).entries@.push((name, ty)),
    {
        proof {
            lemma_entries_map_dom(self.entries@);
        }
        self.entries.push((name, ty));
        proof {
            assert(self.entries@.drop_last() =~= old(self).entries@);
        }
    }

    /// Change the category of an already declared name.
    pub fn set(&mut self, name: &String, ty: Type<'a>)
        requires
            old(self).wf(),
            old(self).as_map().dom().contains(name@),
        ensures
            final(self).wf(),
            final(self).as_map() == old(self).as_map().insert(name@, ty),
            final(self).entries@.len() == old(self).entries@.len(),
            forall|j: int| 0 <= j < final(self).entries@.len()
                ==> final(self).entries@[j].0 == old(self).entries@[j].0,
            forall|j: int| 0 <= j < final(self).entries@.len() && old(self).entries@[j].0@ != name@
                ==> final(self).entries@[j].1 == old(self).entries@[j].1,
    {
        let i = match self.index_of(name) {
            Some(i) => i,
            None => {
                proof {
                    assert(false);
                }
                0
            },
        };
        let nm = self.entries[i].0.clone();
        self.entries.set(i, (nm, ty));
        proof {
            lemma_entries_map_update(old(self).entries@, i as int, ty);
            assert(self.entries@ =~= old(self).entries@.update(
                i as int,
                (old(self).entries@[i as int].0, ty),
            ));
        }
    }
}

/// A name is in the map of an entry list exactly when some entry carries it.
pub proof fn lemma_entries_map_dom<'a>(s: Seq<(String, Type<'a>)>)
    ensures
        forall|n: Seq<char>|
            entries_map(s).dom().contains(n)
                <==> exists|i: int| 0 <= i < s.len() && #[trigger] s[i].0@ == n,
    decreases s,
{
    if s.len() > 0 {
        lemma_entries_map_dom(s.drop_last());
        assert forall|n: Seq<char>| entries_map(s).dom().contains(n) implies exists|i: int|
            0 <= i < s.len() && #[trigger] s[i].0@ == n by {
            if s.last().0@ == n {
                assert(s[s.len() - 1].0@ == n);
            } else {
                assert(entries_map(s.drop_last()).dom().contains(n));
                let i = choose|i: int|
                    0 <= i < s.drop_last().len() && #[trigger] s.drop_last()[i].0@ == n;
                assert(s.drop_last()[i] == s[i]);
                assert(s[i].0@ == n);
            }
        }
        assert forall|n: Seq<char>|
            (exists|i: int| 0 <= i < s.len() && #[trigger] s[i].0@ == n) implies entries_map(
            s,
        ).dom().contains(n) by {
            let i = choose|i: int| 0 <= i < s.len() && #[trigger] s[i].0@ == n;
            if i < s.len() - 1 {
                assert(s.drop_last()[i] == s[i]);
                assert(s.drop_last()[i].0@ == n);
                assert(entries_map(s.drop_last()).dom().contains(n));
            }
        }
    }
}

/// With distinct names, the map agrees with every entry.
pub proof fn lemma_entries_map_at<'a>(s: Seq<(String, Type<'a>)>, i: int)
    requires
        0 <= i < s.len(),
        forall|p: int, q: int| 0 <= p < q < s.len() ==> s[p].0@ != s[q].0@,
    ensures
        entries_map(s).dom().contains(s[i].0@),
        entries_map(s)[s[i].0@] == s[i].1,
    decreases s,
{
    if i == s.len() - 1 {
    } else {
        lemma_entries_map_at(s.drop_last(), i);
        assert(s.drop_last()[i] == s[i]);
        assert(s.last().0@ != s[i].0@);
    }
}

/// Updating the value of entry `i` re-binds exactly its name.
pub proof fn lemma_entries_map_update<'a>(s: Seq<(String, Type<'a>)>, i: int, ty: Type<'a>)
    requires
        0 <= i < s.len(),
        forall|p: int, q: int| 0 <= p < q < s.len() ==> s[p].0@ != s[q].0@,
    ensures
        entries_map(s.update(i, (s[i].0, ty))) == entries_map(s).insert(s[i].0@, ty),
    decreases s,
{
    let s2 = s.update(i, (s[i].0, ty));
    if i == s.len() - 1 {
        assert(s2.drop_last() =~= s.drop_last());
        assert(entries_map(s2) =~= entries_map(s).insert(s[i].0@, ty));
    } else {
        lemma_entries_map_update(s.drop_last(), i, ty);
        assert(s2.drop_last() =~= s.drop_last().update(i, (s[i].0, ty)));
        assert(s2.last() == s.last());
        assert(s.drop_last()[i] == s[i]);
        // the names are distinct, so re-inserting the last entry afterwards
        // does not disturb the re-bound one
        assert(s.last().0@ != s[i].0@);
        assert(entries_map(s2) =~= entries_map(s).insert(s[i].0@, ty));
    }
}

} // verus!
