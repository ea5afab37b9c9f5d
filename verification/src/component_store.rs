//! The blueprint components of one actor, and their reflected properties.
//!
//! What a component is, and how a property of it is read or written, is known
//! to the reflection layer alone. It comes in as closures; which component,
//! which property and whether at all is decided here.

use vstd::prelude::*;

pub mod context;
pub mod properties;

verus! {

/// The identity of a property's type, as far as raw writes need it.
#[derive(Copy, Clone, Debug, PartialEq, Eq, Structural)]
pub enum TypeIdentity {
    Bool,
    U8,
    I8,
    U16,
    I16,
    U32,
    I32,
    U64,
    I64,
    U128,
    I128,
    Usize,
    Isize,
    F32,
    F64,
    Char,
    F32x2,
    F32x3,
    F32x4,
    F32x16,
    /// Any other type. It cannot be written from raw bytes.
    Other,
}

/// The type of a property or of a parameter.
#[derive(Copy, Clone, Debug, PartialEq, Eq, Structural)]
pub struct TypeInfo {
    pub identity: TypeIdentity,
    pub size: usize,
    pub align: usize,
}

/// A property of a component.
#[derive(Clone, Debug)]
pub struct PropertyInfo {
    pub name: String,
    pub type_info: TypeInfo,
}

/// A method of a component.
#[derive(Clone, Debug)]
pub struct MethodInfo {
    pub name: String,
    pub params: Vec<TypeInfo>,
}

/// The first position at or after `from` that has a name, or the length if
/// none has.
pub open spec fn first_named(names: Seq<Seq<char>>, name: Seq<char>, from: int) -> int
    decreases names.len() - from,
{
    if from >= names.len() {
        names.len() as int
    } else if names[from] == name {
        from
    } else {
        first_named(names, name, from + 1)
    }
}

/// The position that has a name first, or the length if none has.
pub open spec fn first_of(names: Seq<Seq<char>>, name: Seq<char>) -> int {
    first_named(names, name, 0)
}

/// Some position has the name.
pub open spec fn has_name(names: Seq<Seq<char>>, name: Seq<char>) -> bool {
    names.contains(name)
}

proof fn lemma_first_named(names: Seq<Seq<char>>, name: Seq<char>, from: int, at: int)
    requires
        0 <= from <= at <= names.len(),
        forall|i: int| from <= i < at ==> names[i] != name,
        at < names.len() ==> names[at] == name,
    ensures
        first_named(names, name, from) == at,
    decreases at - from,
{
    if from < at {
        assert(names[from] != name);
        lemma_first_named(names, name, from + 1, at);
    }
}

/// A name is found where it stands first, and exactly if it occurs.
pub proof fn lemma_first_of(names: Seq<Seq<char>>, name: Seq<char>)
    ensures
        0 <= first_of(names, name) <= names.len(),
        has_name(names, name) <==> first_of(names, name) < names.len(),
        has_name(names, name) ==> names[first_of(names, name)] == name,
        forall|j: int| 0 <= j < first_of(names, name) ==> names[j] != name,
{
    lemma_first_named_is(names, name, 0);
}

proof fn lemma_first_named_is(names: Seq<Seq<char>>, name: Seq<char>, from: int)
    requires
        0 <= from <= names.len(),
    ensures
        from <= first_named(names, name, from) <= names.len(),
        first_named(names, name, from) < names.len() ==> names[first_named(names, name, from)] == name,
        forall|j: int| from <= j < first_named(names, name, from) ==> names[j] != name,
    decreases names.len() - from,
{
    if from < names.len() && names[from] != name {
        lemma_first_named_is(names, name, from + 1);
    }
}

/// The names of properties.
pub open spec fn property_names(props: Seq<PropertyInfo>) -> Seq<Seq<char>> {
    props.map_values(|p: PropertyInfo| p.name@)
}

/// The names of methods.
pub open spec fn method_names(methods: Seq<MethodInfo>) -> Seq<Seq<char>> {
    methods.map_values(|m: MethodInfo| m.name@)
}

/// The names of the entries of a list of named values.
pub open spec fn entry_names<C>(entries: Seq<(String, C)>) -> Seq<Seq<char>> {
    entries.map_values(|e: (String, C)| e.0@)
}

/// The property with a name, the first if there are several.
pub fn find_property(props: &Vec<PropertyInfo>, name: &str) -> (at: Option<usize>)
    ensures
        at is Some <==> has_name(property_names(props@), name@),
        at matches Some(i) ==> i < props@.len() && i == first_of(property_names(props@), name@),
{
    let key: String = name.to_owned();
    let ghost names = property_names(props@);
    let mut i: usize = 0;
    while i < props.len()
        invariant
            i <= props@.len(),
            key@ == name@,
            names == property_names(props@),
            forall|j: int| 0 <= j < i ==> names[j] != name@,
        decreases props@.len() - i,
    {
        if props[i].name == key {
            proof {
                lemma_first_named(names, name@, 0, i as int);
                assert(names[i as int] == name@);
            }
            return Some(i);
        }
        i = i + 1;
    }
    proof {
        lemma_first_named(names, name@, 0, i as int);
    }
    None
}

/// The method with a name, the first if there are several.
pub fn find_method(methods: &Vec<MethodInfo>, name: &str) -> (at: Option<usize>)
    ensures
        at is Some <==> has_name(method_names(methods@), name@),
        at matches Some(i) ==> i < methods@.len() && i == first_of(method_names(methods@), name@),
{
    let key: String = name.to_owned();
    let ghost names = method_names(methods@);
    let mut i: usize = 0;
    while i < methods.len()
        invariant
            i <= methods@.len(),
            key@ == name@,
            names == method_names(methods@),
            forall|j: int| 0 <= j < i ==> names[j] != name@,
        decreases methods@.len() - i,
    {
        if methods[i].name == key {
            proof {
                lemma_first_named(names, name@, 0, i as int);
                assert(names[i as int] == name@);
            }
            return Some(i);
        }
        i = i + 1;
    }
    proof {
        lemma_first_named(names, name@, 0, i as int);
    }
    None
}

/// The entry with a name, the first if there are several.
pub fn find_entry<C>(entries: &Vec<(String, C)>, name: &str) -> (at: Option<usize>)
    ensures
        at is Some <==> has_name(entry_names(entries@), name@),
        at matches Some(i) ==> i < entries@.len() && i == first_of(entry_names(entries@), name@),
{
    let key: String = name.to_owned();
    let ghost names = entry_names(entries@);
    let mut i: usize = 0;
    while i < entries.len()
        invariant
            i <= entries@.len(),
            key@ == name@,
            names == entry_names(entries@),
            forall|j: int| 0 <= j < i ==> names[j] != name@,
        decreases entries@.len() - i,
    {
        if entries[i].0 == key {
            proof {
                lemma_first_named(names, name@, 0, i as int);
                assert(names[i as int] == name@);
            }
            return Some(i);
        }
        i = i + 1;
    }
    proof {
        lemma_first_named(names, name@, 0, i as int);
    }
    None
}

/// Whether raw bytes may be written to a property: its type is one of the plain
/// types that are known, and the address and the size are those of a value of
/// it. An equal size does not make two types the same.
pub open spec fn raw_fits(info: TypeInfo, address: usize, size: usize) -> bool {
    &&& address != 0
    &&& size == info.size
    &&& address as int % (if info.align == 0 {
        1
    } else {
        info.align as int
    }) == 0
    &&& info.identity != TypeIdentity::Other
}

/// Raw bytes may stand for a value of a type exactly if there is an address, the size is
/// that of the type, the address is a multiple of its alignment, where it has one, and
/// the type is one whose values may be read from bytes.
pub proof fn lemma_when_raw_fits(info: TypeInfo, address: usize, size: usize)
    ensures
        raw_fits(info, address, size) <==> address > 0 && size == info.size && (info.align > 0 ==> address as int
            % info.align as int == 0) && info.identity != TypeIdentity::Other,
{
}

/// Whether raw bytes may be written to a property.
pub fn check_raw(info: &TypeInfo, address: usize, size: usize) -> (yes: bool)
    ensures
        yes == raw_fits(*info, address, size),
{
    let align: usize = if info.align == 0 {
        1
    } else {
        info.align
    };
    address != 0 && size == info.size && address % align == 0 && info.identity != TypeIdentity::Other
}

/// The components of an actor, each with the name of its class.
pub struct ComponentStore<C> {
    entries: Vec<(String, C)>,
}

impl<C> View for ComponentStore<C> {
    type V = Seq<(Seq<char>, C)>;

    closed spec fn view(&self) -> Seq<(Seq<char>, C)> {
        self.entries@.map_values(|e: (String, C)| (e.0@, e.1))
    }
}

impl<C> Default for ComponentStore<C> {
    fn default() -> (s: ComponentStore<C>)
        ensures
            s@ == Seq::<(Seq<char>, C)>::empty(),
    {
        ComponentStore::new()
    }
}

impl<C> ComponentStore<C> {
    /// The class names, in the order in which components were added.
    pub open spec fn class_names(&self) -> Seq<Seq<char>> {
        self@.map_values(|e: (Seq<char>, C)| e.0)
    }

    /// Where the first component of a class stands.
    pub open spec fn find(&self, class_name: Seq<char>) -> int {
        first_of(self.class_names(), class_name)
    }

    /// A store without components.
    pub fn new() -> (s: ComponentStore<C>)
        ensures
            s@ == Seq::<(Seq<char>, C)>::empty(),
    {
        let s = ComponentStore { entries: Vec::new() };
        proof {
            assert(s@ =~= Seq::<(Seq<char>, C)>::empty());
        }
        s
    }

    /// Adds a component.
    pub fn add_boxed(&mut self, class_name: String, comp: C)
        ensures
            final(self)@ == old(self)@.push((class_name@, comp)),
    {
        let ghost before = self@;
        self.entries.push((class_name, comp));
        proof {
            assert(self@ =~= before.push((class_name@, comp)));
        }
    }

    /// How many components there are.
    pub fn len(&self) -> (n: usize)
        ensures
            n == self@.len(),
    {
        self.entries.len()
    }

    /// Whether there is no component.
    pub fn is_empty(&self) -> (yes: bool)
        ensures
            yes == (self@.len() == 0),
    {
        self.entries.len() == 0
    }

    /// Where the first component of a class stands.
    pub fn position(&self, class_name: &str) -> (at: Option<usize>)
        ensures
            at is Some <==> self.class_names().contains(class_name@),
            at matches Some(i) ==> i < self@.len() && i == self.find(class_name@),
    {
        proof {
            assert(entry_names(self.entries@) =~= self.class_names());
        }
        find_entry(&self.entries, class_name)
    }

    /// Whether there is a component of a class.
    pub fn has(&self, class_name: &str) -> (yes: bool)
        ensures
            yes == self.class_names().contains(class_name@),
    {
        self.position(class_name).is_some()
    }

    /// The components with the names of their classes, in order.
    pub fn iter(&self) -> (list: Vec<(&str, &C)>)
        ensures
            list@.len() == self@.len(),
            forall|i: int|
                0 <= i < list@.len() ==> (#[trigger] list@[i]).0@ == self@[i].0 && *list@[i].1 == self@[i].1,
    {
        let mut list: Vec<(&str, &C)> = Vec::new();
        let mut i: usize = 0;
        while i < self.entries.len()
            invariant
                i <= self.entries@.len(),
                self@.len() == self.entries@.len(),
                list@.len() == i,
                forall|j: int| 0 <= j < i ==> (#[trigger] list@[j]).0@ == self@[j].0 && *list@[j].1 == self@[j].1,
            decreases self.entries@.len() - i,
        {
            list.push((self.entries[i].0.as_str(), &self.entries[i].1));
            i = i + 1;
        }
        list
    }

    /// The `i`th component with the name of its class.
    pub fn entry(&self, i: usize) -> (e: Option<(&str, &C)>)
        ensures
            match e {
                Some((n, c)) => i < self@.len() && n@ == self@[i as int].0 && *c == self@[i as int].1,
                None => i >= self@.len(),
            },
    {
        if i < self.entries.len() {
            Some((self.entries[i].0.as_str(), &self.entries[i].1))
        } else {
            None
        }
    }

    /// The `i`th component, to be changed.
    pub fn entry_mut(&mut self, i: usize) -> (c: Option<&mut C>)
        ensures
            match c {
                Some(c) => i < old(self)@.len() && *c == old(self)@[i as int].1 && final(self)@ == old(self)@.update(
                    i as int,
                    (old(self)@[i as int].0, *final(c)),
                ),
                None => i >= old(self)@.len() && *final(self) == *old(self),
            },
    {
        if i < self.entries.len() {
            let ghost before = self@;
            let c = &mut self.entries[i].1;
            proof {
                assert(after_borrow(self)@ =~= before.update(i as int, (before[i as int].0, *final(c))));
            }
            Some(c)
        } else {
            None
        }
    }

    /// The first component of a class.
    pub fn get_by_name(&self, class_name: &str) -> (found: Option<&C>)
        ensures
            match found {
                Some(c) => self.class_names().contains(class_name@) && *c == self@[self.find(class_name@)].1,
                None => !self.class_names().contains(class_name@),
            },
    {
        match self.position(class_name) {
            Some(i) => Some(&self.entries[i].1),
            None => None,
        }
    }

    /// The first component of a class, to be changed.
    pub fn get_by_name_mut(&mut self, class_name: &str) -> (found: Option<&mut C>)
        ensures
            found is Some <==> old(self).class_names().contains(class_name@),
            match found {
                Some(c) => {
                    let i = old(self).find(class_name@);
                    *c == old(self)@[i].1 && final(self)@ == old(self)@.update(i, (old(self)@[i].0, *final(c)))
                },
                None => *final(self) == *old(self),
            },
    {
        match self.position(class_name) {
            Some(i) => self.entry_mut(i),
            None => None,
        }
    }

    /// The first component for which `is` holds.
    pub fn get<F: Fn(&C) -> bool>(&self, is: F) -> (found: Option<&C>)
        requires
            forall|c: &C| #[trigger] call_requires(is, (c,)),
        ensures
            match found {
                Some(c) => exists|i: int|
                    0 <= i < self@.len() && *c == self@[i].1 && call_ensures(is, (&(#[trigger] self@[i]).1,), true)
                        && forall|j: int|
                        0 <= j < i ==> call_ensures(is, (&(#[trigger] self@[j]).1,), false),
                None => forall|j: int| 0 <= j < self@.len() ==> call_ensures(is, (&(#[trigger] self@[j]).1,), false),
            },
    {
        let mut i: usize = 0;
        while i < self.entries.len()
            invariant
                i <= self.entries@.len(),
                self@.len() == self.entries@.len(),
                forall|c: &C| #[trigger] call_requires(is, (c,)),
                forall|j: int| 0 <= j < i ==> call_ensures(is, (&(#[trigger] self@[j]).1,), false),
            decreases self.entries@.len() - i,
        {
            let c = &self.entries[i].1;
            assert(*c == self@[i as int].1);
            if is(c) {
                return Some(c);
            }
            i = i + 1;
        }
        None
    }

    /// The first component for which `is` holds, to be changed.
    pub fn get_mut<F: Fn(&C) -> bool>(&mut self, is: F) -> (found: Option<&mut C>)
        requires
            forall|c: &C| #[trigger] call_requires(is, (c,)),
        ensures
            match found {
                Some(c) => exists|i: int|
                    0 <= i < old(self)@.len() && *c == (#[trigger] old(self)@[i]).1 && call_ensures(
                        is,
                        (&old(self)@[i].1,),
                        true,
                    ) && (forall|j: int|
                        0 <= j < i ==> call_ensures(is, (&(#[trigger] old(self)@[j]).1,), false)) && final(self)@
                        == old(self)@.update(i, (old(self)@[i].0, *final(c))),
                None => *final(self) == *old(self) && forall|j: int|
                    0 <= j < old(self)@.len() ==> call_ensures(is, (&(#[trigger] old(self)@[j]).1,), false),
            },
    {
        let len: usize = self.entries.len();
        let mut i: usize = 0;
        while i < len
            invariant
                i <= len,
                len == self@.len(),
                len == self.entries@.len(),
                *self == *old(self),
                forall|c: &C| #[trigger] call_requires(is, (c,)),
                forall|j: int| 0 <= j < i ==> call_ensures(is, (&(#[trigger] self@[j]).1,), false),
            decreases len - i,
        {
            let c = &self.entries[i].1;
            assert(*c == self@[i as int].1);
            if is(c) {
                return self.entry_mut(i);
            }
            i = i + 1;
        }
        None
    }
}

} // verus!
