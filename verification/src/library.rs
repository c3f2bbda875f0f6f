//! A library of functions that Yarn scripts can call, keyed by name.
//!
//! A function is known to the library by its signature (parameter types, return
//! type, variadic argument type); the callable itself is an opaque value `C`
//! supplied by the host.
use vstd::prelude::*;
use crate::text::{decimal, decimal_string};
use crate::types::Type;

verus! {

/// A function with a fixed parameter list.
#[derive(Debug, Clone)]
pub struct TypedYarnFn<C> {
    /// The parameter types, in order.
    pub parameter_types: Vec<Type>,
    /// The return type.
    pub return_type: Type,
    /// The callable.
    pub call: C,
}

/// A function that takes fixed parameters followed by any number of arguments of
/// one further type. Its callable receives all arguments in one list.
#[derive(Debug, Clone)]
pub struct VariadicYarnFn<C> {
    fixed_param_types: Vec<Type>,
    variadic_type: Type,
    return_type_value: Type,
    func: C,
}

impl<C> VariadicYarnFn<C> {
    /// The types of the fixed parameters.
    pub closed spec fn spec_fixed_param_types(&self) -> Seq<Type> {
        self.fixed_param_types@
    }

    /// The type shared by all variadic arguments.
    pub closed spec fn spec_variadic_type(&self) -> Type {
        self.variadic_type
    }

    /// The return type.
    pub closed spec fn spec_return_type(&self) -> Type {
        self.return_type_value
    }

    /// The callable.
    pub closed spec fn spec_func(&self) -> C {
        self.func
    }

    /// Creates a variadic function from its fixed parameter types, the type of its
    /// variadic arguments, its return type and its callable.
    pub fn new(fixed_param_types: Vec<Type>, variadic_type: Type, return_type: Type, func: C) -> (r: Self)
        ensures
            r.spec_fixed_param_types() == fixed_param_types@,
            r.spec_variadic_type() == variadic_type,
            r.spec_return_type() == return_type,
            r.spec_func() == func,
    {
        VariadicYarnFn { fixed_param_types, variadic_type, return_type_value: return_type, func }
    }

    /// The types of the fixed parameters only.
    pub fn parameter_types(&self) -> (r: &Vec<Type>)
        ensures
            r@ == self.spec_fixed_param_types(),
    {
        &self.fixed_param_types
    }

    /// The return type.
    pub fn return_type(&self) -> (r: &Type)
        ensures
            *r == self.spec_return_type(),
    {
        &self.return_type_value
    }

    /// The type of the variadic arguments; always present.
    pub fn variadic_parameter_type(&self) -> (r: Option<&Type>)
        ensures
            r == Some(&self.spec_variadic_type()),
    {
        Some(&self.variadic_type)
    }

    /// The callable.
    pub fn func(&self) -> (r: &C)
        ensures
            *r == self.spec_func(),
    {
        &self.func
    }
}

/// A function registered in a [`Library`].
#[derive(Debug, Clone)]
pub enum YarnFn<C> {
    /// A function with a fixed parameter list.
    Typed(TypedYarnFn<C>),
    /// A variadic function.
    Variadic(VariadicYarnFn<C>),
}

impl<C> YarnFn<C> {
    /// The number of fixed parameters.
    pub open spec fn spec_parameter_count(&self) -> nat {
        match self {
            YarnFn::Typed(t) => t.parameter_types@.len(),
            YarnFn::Variadic(v) => v.spec_fixed_param_types().len(),
        }
    }

    /// The number of fixed parameters.
    pub fn parameter_count(&self) -> (r: usize)
        ensures
            r == self.spec_parameter_count(),
    {
        match self {
            YarnFn::Typed(t) => t.parameter_types.len(),
            YarnFn::Variadic(v) => v.parameter_types().len(),
        }
    }

    /// Whether the function takes variadic arguments.
    pub fn is_variadic(&self) -> (r: bool)
        ensures
            r == (self is Variadic),
    {
        match self {
            YarnFn::Typed(_) => false,
            YarnFn::Variadic(_) => true,
        }
    }
}

/// A collection of functions that can be called from Yarn scripts, keyed by name.
#[derive(Debug)]
pub struct Library<C> {
    entries: Vec<(String, YarnFn<C>)>,
}

/// The names of a list of entries.
pub open spec fn entry_names<C>(entries: Seq<(String, YarnFn<C>)>) -> Seq<Seq<char>> {
    entries.map_values(|e: (String, YarnFn<C>)| e.0@)
}

/// The map from name to function that a list of entries with distinct names holds.
pub open spec fn entries_map<C>(entries: Seq<(String, YarnFn<C>)>) -> Map<Seq<char>, YarnFn<C>>
    decreases entries.len(),
{
    if entries.len() == 0 {
        Map::empty()
    } else {
        entries_map(entries.drop_last()).insert(entries.last().0@, entries.last().1)
    }
}

/// The prefix of the variables that count visits to a node.
pub open spec fn visiting_prefix() -> Seq<char> {
    "$Yarn.Internal.Visiting."@
}

/// The prefix of the variables that record whether content has been seen.
pub open spec fn once_prefix() -> Seq<char> {
    "$Yarn.Internal.Once."@
}

/// The text that describes a `<<once>>` command block by its place in the source.
pub open spec fn once_block_description(source_file_name: Seq<char>, node: Seq<char>, line_number: nat) -> Seq<char> {
    "'once' statement in file "@ + source_file_name + ", node "@ + node + ", line "@ + decimal(line_number)
}

/// The CRC-32 checksum of the UTF-8 encoding of `text`, as `crc32fast::hash` computes it.
pub uninterp spec fn crc32_of_text(text: Seq<char>) -> u32;

/// Trusted: `crc32fast::hash` over the UTF-8 bytes of `text`. The checksum is named
/// by [`crc32_of_text`]; nothing further about its value is claimed.
#[verifier::external_body]
pub(crate) fn crc32_text(text: &str) -> (r: u32)
    ensures
        r == crc32_of_text(text@),
{
    crc32fast::hash(text.as_bytes())
}

/// Whether the names of the entries are pairwise distinct.
pub open spec fn distinct_names<C>(entries: Seq<(String, YarnFn<C>)>) -> bool {
    forall|a: int, b: int| 0 <= a < b < entries.len() ==> entries[a].0@ != entries[b].0@
}

impl<C> View for Library<C> {
    type V = Map<Seq<char>, YarnFn<C>>;

    closed spec fn view(&self) -> Map<Seq<char>, YarnFn<C>> {
        entries_map(self.entries@)
    }
}

/// The map of a list of entries has exactly their names as domain, and maps each
/// name to the entry's function.
proof fn lemma_entries_map<C>(entries: Seq<(String, YarnFn<C>)>)
    requires
        distinct_names(entries),
    ensures
        forall|k: Seq<char>| entries_map(entries).dom().contains(k) <==> entry_names(entries).contains(k),
        forall|i: int| 0 <= i < entries.len() ==> entries_map(entries)[#[trigger] entries[i].0@] == entries[i].1,
        entries_map(entries).dom().finite(),
        entries_map(entries).dom().len() == entries.len(),
    decreases entries.len(),
{
    if entries.len() > 0 {
        let prev = entries.drop_last();
        lemma_entries_map(prev);
        let last = entries.last();
        assert(!entry_names(prev).contains(last.0@)) by {
            if entry_names(prev).contains(last.0@) {
                let i = choose|i: int| 0 <= i < entry_names(prev).len() && entry_names(prev)[i] == last.0@;
                assert(entries[i].0@ == entries[entries.len() - 1].0@);
            }
        }
        assert forall|k: Seq<char>| entries_map(entries).dom().contains(k) <==> entry_names(entries).contains(k) by {
            if entry_names(entries).contains(k) {
                let i = choose|i: int| 0 <= i < entry_names(entries).len() && entry_names(entries)[i] == k;
                if i < entries.len() - 1 {
                    assert(entry_names(prev)[i] == k);
                }
            }
            if entry_names(prev).contains(k) {
                let i = choose|i: int| 0 <= i < entry_names(prev).len() && entry_names(prev)[i] == k;
                assert(entry_names(entries)[i] == k);
            }
            if k == last.0@ {
                assert(entry_names(entries)[entries.len() - 1] == k);
            }
        }
        assert forall|i: int| 0 <= i < entries.len() implies entries_map(entries)[#[trigger] entries[i].0@] == entries[i].1 by {
            if i < entries.len() - 1 {
                assert(prev[i] == entries[i]);
                assert(entries[i].0@ != last.0@);
            }
        }
    }
}

impl<C: Clone> Clone for Library<C> {
    /// A library with functions under the same names.
    fn clone(&self) -> (r: Self)
        ensures
            r@.dom() == self@.dom(),
    {
        proof {
            use_type_invariant(self);
        }
        let mut entries: Vec<(String, YarnFn<C>)> = Vec::new();
        let mut i: usize = 0;
        while i < self.entries.len()
            invariant
                i <= self.entries@.len(),
                entry_names(entries@) == entry_names(self.entries@.subrange(0, i as int)),
                distinct_names(self.entries@),
            decreases self.entries.len() - i,
        {
            let name = self.entries[i].0.clone();
            let function = self.entries[i].1.clone();
            let ghost prev = entries@;
            let ghost name_view = name@;
            assert(name_view == self.entries@[i as int].0@);
            entries.push((name, function));
            assert(entries@ == prev.push(entries@.last()));
            assert(entry_names(entries@) =~= entry_names(prev).push(name_view));
            assert(self.entries@.subrange(0, i + 1) =~= self.entries@.subrange(0, i as int).push(self.entries@[i as int]));
            assert(entry_names(self.entries@.subrange(0, i + 1)) =~= entry_names(self.entries@.subrange(0, i as int)).push(
                name_view,
            ));
            i = i + 1;
        }
        assert(self.entries@.subrange(0, i as int) =~= self.entries@);
        assert(distinct_names(entries@)) by {
            assert forall|a: int, b: int| 0 <= a < b < entries@.len() implies entries@[a].0@ != entries@[b].0@ by {
                assert(entry_names(entries@)[a] == entry_names(self.entries@)[a]);
                assert(entry_names(entries@)[b] == entry_names(self.entries@)[b]);
            }
        }
        proof {
            lemma_entries_map(entries@);
            lemma_entries_map(self.entries@);
        }
        assert(entry_names(entries@) == entry_names(self.entries@));
        let ghost ev = entries@;
        let r = Library { entries };
        assert(r.entries@ == ev);
        assert forall|k: Seq<char>| r@.dom().contains(k) <==> self@.dom().contains(k) by {
            assert(r@ == entries_map(ev));
            assert(entries_map(ev).dom().contains(k) == entry_names(ev).contains(k));
            assert(self@.dom().contains(k) == entry_names(self.entries@).contains(k));
        }
        assert(r@.dom() =~= self@.dom());
        r
    }
}

impl<C> Default for Library<C> {
    /// An empty library, as [`Library::new`] creates.
    fn default() -> (r: Self)
        ensures
            r@ == Map::<Seq<char>, YarnFn<C>>::empty(),
    {
        Library::new()
    }
}

impl<C> Library<C> {
    /// The entries hold distinct names.
    #[verifier::type_invariant]
    spec fn names_distinct(&self) -> bool {
        distinct_names(self.entries@)
    }

    /// Creates an empty library.
    pub fn new() -> (r: Self)
        ensures
            r@ == Map::<Seq<char>, YarnFn<C>>::empty(),
    {
        Library { entries: Vec::new() }
    }

    /// The position of the entry named `name`, if any.
    fn position(&self, name: &str) -> (r: Option<usize>)
        ensures
            match r {
                Some(i) => i < self.entries@.len() && self.entries@[i as int].0@ == name@,
                None => forall|i: int| 0 <= i < self.entries@.len() ==> self.entries@[i].0@ != name@,
            },
    {
        let mut i: usize = 0;
        while i < self.entries.len()
            invariant
                i <= self.entries@.len(),
                forall|j: int| 0 <= j < i ==> self.entries@[j].0@ != name@,
            decreases self.entries@.len() - i,
        {
            if crate::text::str_eq(self.entries[i].0.as_str(), name) {
                return Some(i);
            }
            i = i + 1;
        }
        None
    }

    /// Adds a function under `name`, replacing any function of that name.
    pub fn add_yarn_fn(&mut self, name: String, function: YarnFn<C>)
        ensures
            final(self)@ == old(self)@.insert(name@, function),
    {
        proof {
            use_type_invariant(&*self);
            lemma_entries_map(self.entries@);
        }
        let ghost old_map = self@;
        match self.position(name.as_str()) {
            Some(i) => {
                let ghost before = self.entries@;
                let mut entries: Vec<(String, YarnFn<C>)> = Vec::new();
                core::mem::swap(&mut entries, &mut self.entries);
                let _ = entries.remove(i);
                entries.push((name, function));
                proof {
                    let after = entries@;
                    assert forall|a: int, b: int| 0 <= a < b < after.len() implies after[a].0@ != after[b].0@ by {
                        if b == after.len() - 1 {
                            if a < i {
                                assert(after[a] == before[a]);
                            } else {
                                assert(after[a] == before[a + 1]);
                            }
                        } else {
                            let ia = if a < i { a } else { a + 1 };
                            let ib = if b < i { b } else { b + 1 };
                            assert(after[a] == before[ia]);
                            assert(after[b] == before[ib]);
                        }
                    }
                    lemma_entries_map(after);
                    assert forall|k: Seq<char>| #[trigger] entries_map(after).dom().contains(k) == old_map.insert(
                        name@,
                        function,
                    ).dom().contains(k) by {
                        if entry_names(after).contains(k) {
                            let j = choose|j: int| 0 <= j < entry_names(after).len() && entry_names(after)[j] == k;
                            if j < after.len() - 1 {
                                let ij = if j < i { j } else { j + 1 };
                                assert(after[j] == before[ij]);
                                assert(entry_names(before)[ij] == k);
                            }
                        }
                        if entry_names(before).contains(k) && k != name@ {
                            let j = choose|j: int| 0 <= j < entry_names(before).len() && entry_names(before)[j] == k;
                            assert(j != i);
                            let aj = if j < i { j } else { j - 1 };
                            assert(after[aj] == before[j]);
                            assert(entry_names(after)[aj] == k);
                        }
                        if k == name@ {
                            assert(entry_names(after)[after.len() - 1] == k);
                        }
                    }
                    assert forall|k: Seq<char>| #[trigger] entries_map(after).dom().contains(k) implies entries_map(after)[k]
                        == old_map.insert(name@, function)[k] by {
                        assert(entry_names(after).contains(k));
                        let j = choose|j: int| 0 <= j < entry_names(after).len() && entry_names(after)[j] == k;
                        assert(entries_map(after)[after[j].0@] == after[j].1);
                        if j < after.len() - 1 {
                            let ij = if j < i { j } else { j + 1 };
                            assert(after[j] == before[ij]);
                            assert(old_map[before[ij].0@] == before[ij].1);
                        }
                    }
                    assert(entries_map(after) =~= old_map.insert(name@, function));
                }
                self.entries = entries;
            },
            None => {
                let ghost before = self.entries@;
                let mut entries: Vec<(String, YarnFn<C>)> = Vec::new();
                core::mem::swap(&mut entries, &mut self.entries);
                entries.push((name, function));
                proof {
                    let after = entries@;
                    assert(after.drop_last() =~= before);
                    assert forall|a: int, b: int| 0 <= a < b < after.len() implies after[a].0@ != after[b].0@ by {
                        if b < after.len() - 1 {
                            assert(after[a] == before[a] && after[b] == before[b]);
                        } else {
                            assert(after[a] == before[a]);
                        }
                    }
                }
                self.entries = entries;
            },
        }
    }

    /// Adds a function with a fixed parameter list under `name`, replacing any
    /// function of that name; returns the library, for chaining.
    pub fn add_function(&mut self, name: String, parameter_types: Vec<Type>, return_type: Type, call: C) -> (r: &mut Self)
        ensures
            r@ == old(self)@.insert(name@, YarnFn::Typed(TypedYarnFn { parameter_types, return_type, call })),
            *final(self) == *final(r),
    {
        self.add_yarn_fn(name, YarnFn::Typed(TypedYarnFn { parameter_types, return_type, call }));
        self
    }

    /// Adds a variadic function under `name`, replacing any function of that name.
    /// Its callable receives the fixed and the variadic arguments in one list.
    pub fn add_variadic_function(
        &mut self,
        name: String,
        fixed_param_types: Vec<Type>,
        variadic_type: Type,
        return_type: Type,
        func: C,
    ) -> (r: &mut Self)
        ensures
            r@.dom() == old(self)@.dom().insert(name@),
            forall|k: Seq<char>| k != name@ && old(self)@.dom().contains(k) ==> #[trigger] r@[k] == old(self)@[k],
            r@[name@] matches YarnFn::Variadic(v) && {
                &&& v.spec_fixed_param_types() == fixed_param_types@
                &&& v.spec_variadic_type() == variadic_type
                &&& v.spec_return_type() == return_type
                &&& v.spec_func() == func
            },
            *final(self) == *final(r),
    {
        let wrapper = VariadicYarnFn::new(fixed_param_types, variadic_type, return_type, func);
        self.add_yarn_fn(name, YarnFn::Variadic(wrapper));
        self
    }

    /// Loads the functions of `other` into this library, replacing functions of
    /// the same name.
    pub fn import(&mut self, other: Self)
        ensures
            final(self)@ == old(self)@.union_prefer_right(other@),
    {
        proof {
            use_type_invariant(&other);
            lemma_entries_map(other.entries@);
        }
        let ghost start = self@;
        let ghost oe = other.entries@;
        let mut rest = other.entries;
        let total = rest.len();
        let mut taken: Vec<(String, YarnFn<C>)> = Vec::new();
        assert(rest@ + taken@.reverse() =~= oe);
        while rest.len() > 0
            invariant
                rest@ + taken@.reverse() == oe,
            decreases rest@.len(),
        {
            let ghost r_before = rest@;
            let ghost t_before = taken@;
            let e = rest.pop().unwrap();
            taken.push(e);
            assert(taken@.reverse() =~= seq![e] + t_before.reverse());
            assert(r_before =~= rest@.push(e));
            assert(rest@ + taken@.reverse() =~= r_before + t_before.reverse());
        }
        assert(taken@.reverse() =~= oe);
        let mut i: usize = 0;
        assert(oe.subrange(0, 0) =~= Seq::<(String, YarnFn<C>)>::empty());
        assert(start.union_prefer_right(entries_map(oe.subrange(0, 0))) =~= start);
        assert(oe.subrange(0, oe.len() as int) =~= oe);
        while taken.len() > 0
            invariant
                taken@.reverse() == oe.subrange(i as int, oe.len() as int),
                i + taken@.len() == oe.len(),
                oe.len() == total,
                self@ == start.union_prefer_right(entries_map(oe.subrange(0, i as int))),
            decreases taken@.len(),
        {
            let ghost t_before = taken@;
            let e = taken.pop().unwrap();
            proof {
                assert(t_before.reverse()[0] == e);
                assert(oe.subrange(i as int, oe.len() as int)[0] == oe[i as int]);
            }
            self.add_yarn_fn(e.0, e.1);
            proof {
                assert(oe.subrange(0, i + 1).drop_last() =~= oe.subrange(0, i as int));
                assert(oe.subrange(0, i + 1).last() == e);
                assert(self@ =~= start.union_prefer_right(entries_map(oe.subrange(0, i + 1))));
                assert(taken@.reverse() =~= t_before.reverse().drop_first());
                assert(t_before.reverse().drop_first() =~= oe.subrange(i + 1, oe.len() as int));
            }
            i = i + 1;
        }
        assert(oe.subrange(0, i as int) =~= oe);
    }

    /// The function registered under `name`, if any.
    pub fn get(&self, name: &str) -> (r: Option<&YarnFn<C>>)
        ensures
            match r {
                Some(f) => self@.dom().contains(name@) && *f == self@[name@],
                None => !self@.dom().contains(name@),
            },
    {
        proof {
            use_type_invariant(self);
            lemma_entries_map(self.entries@);
        }
        match self.position(name) {
            Some(i) => {
                assert(entry_names(self.entries@)[i as int] == name@);
                assert(entry_names(self.entries@).contains(name@));
                assert(self@[self.entries@[i as int].0@] == self.entries@[i as int].1);
                Some(&self.entries[i].1)
            },
            None => {
                proof {
                    if entry_names(self.entries@).contains(name@) {
                        let j = choose|j: int| 0 <= j < entry_names(self.entries@).len() && entry_names(self.entries@)[j] == name@;
                        assert(self.entries@[j].0@ == name@);
                    }
                }
                None
            },
        }
    }

    /// Whether the library holds a function named `name`.
    pub fn contains_function(&self, name: &str) -> (r: bool)
        ensures
            r == self@.dom().contains(name@),
    {
        self.get(name).is_some()
    }

    /// The names and functions of the library, each name once.
    pub fn iter(&self) -> (r: Vec<(&String, &YarnFn<C>)>)
        ensures
            r@.len() == self@.dom().len(),
            forall|i: int| 0 <= i < r@.len() ==> self@.dom().contains((#[trigger] r@[i]).0@) && self@[r@[i].0@] == *r@[i].1,
            forall|a: int, b: int| 0 <= a < b < r@.len() ==> r@[a].0@ != r@[b].0@,
            forall|k: Seq<char>| #[trigger] self@.dom().contains(k) ==> exists|i: int| 0 <= i < r@.len() && (#[trigger] r@[i]).0@ == k,
    {
        proof {
            use_type_invariant(self);
            lemma_entries_map(self.entries@);
        }
        let mut out: Vec<(&String, &YarnFn<C>)> = Vec::new();
        let mut i: usize = 0;
        while i < self.entries.len()
            invariant
                i <= self.entries@.len(),
                out@.len() == i,
                forall|j: int| 0 <= j < i ==> (#[trigger] out@[j]).0 == &self.entries@[j].0 && out@[j].1 == &self.entries@[j].1,
            decreases self.entries@.len() - i,
        {
            out.push((&self.entries[i].0, &self.entries[i].1));
            i = i + 1;
        }
        proof {
            assert forall|j: int| 0 <= j < out@.len() implies self@.dom().contains((#[trigger] out@[j]).0@) by {
                assert(entry_names(self.entries@)[j] == out@[j].0@);
                assert(entry_names(self.entries@).contains(out@[j].0@));
            }
            assert forall|k: Seq<char>| #[trigger] self@.dom().contains(k) implies exists|i: int|
                0 <= i < out@.len() && (#[trigger] out@[i]).0@ == k by {
                assert(entry_names(self.entries@).contains(k));
                let i = choose|i: int| 0 <= i < entry_names(self.entries@).len() && entry_names(self.entries@)[i] == k;
                assert(out@[i].0@ == k);
            }
        }
        out
    }

    /// The names of the functions in the library, each once.
    pub fn names(&self) -> (r: Vec<String>)
        ensures
            r@.len() == self@.dom().len(),
            forall|i: int| 0 <= i < r@.len() ==> self@.dom().contains(#[trigger] r@[i]@),
            forall|a: int, b: int| 0 <= a < b < r@.len() ==> r@[a]@ != r@[b]@,
            forall|k: Seq<char>| #[trigger] self@.dom().contains(k) ==> exists|i: int| 0 <= i < r@.len() && (#[trigger] r@[i])@ == k,
    {
        let all = self.iter();
        let mut out: Vec<String> = Vec::new();
        let mut i: usize = 0;
        while i < all.len()
            invariant
                i <= all@.len(),
                out@.len() == i,
                forall|j: int| 0 <= j < i ==> (#[trigger] out@[j])@ == all@[j].0@,
            decreases all@.len() - i,
        {
            out.push(all[i].0.clone());
            i = i + 1;
        }
        proof {
            assert forall|j: int| 0 <= j < out@.len() implies self@.dom().contains(#[trigger] out@[j]@) by {
                assert(out@[j]@ == all@[j].0@);
            }
            assert forall|k: Seq<char>| #[trigger] self@.dom().contains(k) implies exists|i: int|
                0 <= i < out@.len() && (#[trigger] out@[i])@ == k by {
                let i = choose|i: int| 0 <= i < all@.len() && (#[trigger] all@[i]).0@ == k;
                assert(out@[i]@ == all@[i].0@);
            }
        }
        out
    }

    /// The functions of the library, one for each name.
    pub fn functions(&self) -> (r: Vec<&YarnFn<C>>)
        ensures
            r@.len() == self@.dom().len(),
            forall|i: int| 0 <= i < r@.len() ==> self@.contains_value(*#[trigger] r@[i]),
            forall|k: Seq<char>| #[trigger] self@.dom().contains(k) ==> exists|i: int| 0 <= i < r@.len() && *#[trigger] r@[i] == self@[k],
    {
        let all = self.iter();
        let mut out: Vec<&YarnFn<C>> = Vec::new();
        let mut i: usize = 0;
        while i < all.len()
            invariant
                i <= all@.len(),
                out@.len() == i,
                forall|j: int| 0 <= j < i ==> #[trigger] out@[j] == all@[j].1,
            decreases all@.len() - i,
        {
            out.push(all[i].1);
            i = i + 1;
        }
        proof {
            assert forall|j: int| 0 <= j < out@.len() implies self@.contains_value(*#[trigger] out@[j]) by {
                let k = all@[j].0@;
                assert(self@.dom().contains(k) && self@[k] == *all@[j].1);
                assert(out@[j] == all@[j].1);
                assert(self@.dom().contains(k) && self@[k] == *out@[j]);
            }
            assert forall|k: Seq<char>| #[trigger] self@.dom().contains(k) implies exists|i: int|
                0 <= i < out@.len() && *#[trigger] out@[i] == self@[k] by {
                let i = choose|i: int| 0 <= i < all@.len() && (#[trigger] all@[i]).0@ == k;
                assert(out@[i] == all@[i].1);
            }
        }
        out
    }

    /// The name of the variable that counts the visits to node `node_name`.
    pub fn generate_unique_visited_variable_for_node(node_name: &str) -> (r: String)
        ensures
            r@ == visiting_prefix() + node_name@,
    {
        let mut s = String::from_str("$Yarn.Internal.Visiting.");
        s.append(node_name);
        s
    }

    /// The name of the boolean variable that records whether the content identified
    /// by `line_id` has been seen.
    pub fn generate_unique_content_viewed_variable_name(line_id: &str) -> (r: String)
        ensures
            r@ == once_prefix() + line_id@,
    {
        let mut s = String::from_str("$Yarn.Internal.Once.");
        s.append(line_id);
        s
    }

    /// The name of the boolean variable that records whether a `<<once>>` command
    /// block has been seen: the content-viewed name of the decimal CRC-32 of a text
    /// that describes the block's place in the source.
    pub fn generate_unique_command_block_viewed_variable_name(source_file_name: &str, node: &str, line_number: usize) -> (r:
        String)
        ensures
            r@ == once_prefix() + decimal(
                crc32_of_text(once_block_description(source_file_name@, node@, line_number as nat)) as nat,
            ),
    {
        let mut description = String::from_str("'once' statement in file ");
        description.append(source_file_name);
        description.append(", node ");
        description.append(node);
        description.append(", line ");
        let line = decimal_string(line_number as u64);
        description.append(line.as_str());
        let hash = crc32_text(description.as_str());
        let digits = decimal_string(hash as u64);
        Self::generate_unique_content_viewed_variable_name(digits.as_str())
    }
}

/// A function added under a name is what the library then holds under that name,
/// and the library's other functions stay as they were.
pub proof fn law_found_after_add<C>(before: Map<Seq<char>, YarnFn<C>>, name: Seq<char>, f: YarnFn<C>)
    ensures
        before.insert(name, f).dom().contains(name),
        before.insert(name, f)[name] == f,
        forall|k: Seq<char>| k != name ==> (#[trigger] before.insert(name, f).dom().contains(k) <==> before.dom().contains(k)),
        forall|k: Seq<char>| k != name && before.dom().contains(k) ==> #[trigger] before.insert(name, f)[k] == before[k],
{
}

/// After an import, the library holds every function of the imported library
/// (which wins where both have a name) and every function it held before.
pub proof fn law_import_holds_both<C>(mine: Map<Seq<char>, YarnFn<C>>, other: Map<Seq<char>, YarnFn<C>>, name: Seq<char>)
    ensures
        mine.union_prefer_right(other).dom().contains(name) <==> (mine.dom().contains(name) || other.dom().contains(
            name,
        )),
        other.dom().contains(name) ==> mine.union_prefer_right(other)[name] == other[name],
        mine.dom().contains(name) && !other.dom().contains(name) ==> mine.union_prefer_right(other)[name] == mine[name],
{
}

} // verus!
