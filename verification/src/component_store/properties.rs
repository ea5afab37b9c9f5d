//! Reading and writing reflected properties, and calling reflected methods.

use vstd::prelude::*;
use crate::component_store::{check_raw, entry_names, find_entry, find_method, find_property, first_of, has_name, method_names, property_names, raw_fits, ComponentStore, MethodInfo, PropertyInfo, TypeIdentity, TypeInfo};

verus! {

impl<C> ComponentStore<C> {
    /// The value of a property, serialized. `None` if there is no such
    /// component or property, or if its value cannot be serialized.
    pub fn get_property_json<J, A, P, G, S>(
        &self,
        class_name: &str,
        prop_name: &str,
        properties: P,
        getter: G,
        serialize: S,
    ) -> (out: Option<J>) where P: Fn(&C) -> Vec<PropertyInfo>, G: Fn(&C, usize) -> A, S: Fn(&A) -> Option<J>
        requires
            forall|c: &C| #[trigger] call_requires(properties, (c,)),
            forall|c: &C, p: usize| #[trigger] call_requires(getter, (c, p)),
            forall|a: &A| #[trigger] call_requires(serialize, (a,)),
        ensures
            !self.class_names().contains(class_name@) ==> out is None,
            self.class_names().contains(class_name@) ==> {
                let comp = self@[self.find(class_name@)].1;
                exists|props: Vec<PropertyInfo>| #[trigger]
                    call_ensures(properties, (&comp,), props) && if has_name(
                        property_names(props@),
                        prop_name@,
                    ) {
                        let p = first_of(property_names(props@), prop_name@);
                        exists|a: A| #[trigger]
                            call_ensures(getter, (&comp, p as usize), a) && call_ensures(serialize, (&a,), out)
                    } else {
                        out is None
                    }
            },
    {
        let i: usize = match self.position(class_name) {
            Some(i) => i,
            None => {
                return None;
            },
        };
        let comp = &self.entries[i].1;
        let props = properties(comp);
        assert(*comp == self@[i as int].1);
        assert(call_ensures(properties, (&self@[i as int].1,), props));
        match find_property(&props, prop_name) {
            Some(p) => {
                let a = getter(comp, p);
                serialize(&a)
            },
            None => None,
        }
    }

    /// Writes a serialized value to a property. Returns whether it was written:
    /// not if there is no such component or property, or if the value is not
    /// one of the property's type.
    pub fn set_property_json<J, A, P, D, S>(
        &mut self,
        class_name: &str,
        prop_name: &str,
        value: &J,
        properties: P,
        deserialize: D,
        setter: S,
    ) -> (done: bool) where
        P: Fn(&C) -> Vec<PropertyInfo>,
        D: Fn(TypeInfo, &J) -> Option<A>,
        S: Fn(&mut C, usize, A),

        requires
            forall|c: &C| #[trigger] call_requires(properties, (c,)),
            forall|t: TypeInfo, j: &J| #[trigger] call_requires(deserialize, (t, j)),
            forall|c: &mut C, p: usize, a: A| #[trigger] call_requires(setter, (c, p, a)),
        ensures
            !done ==> *final(self) == *old(self),
            !old(self).class_names().contains(class_name@) ==> !done,
            old(self).class_names().contains(class_name@) ==> {
                let i = old(self).find(class_name@);
                let comp = old(self)@[i].1;
                exists|props: Vec<PropertyInfo>| #[trigger]
                    call_ensures(properties, (&comp,), props) && if has_name(
                        property_names(props@),
                        prop_name@,
                    ) {
                        let p = first_of(property_names(props@), prop_name@);
                        exists|read: Option<A>| #[trigger]
                            call_ensures(deserialize, (props@[p].type_info, value), read) && match read {
                                None => !done,
                                Some(a) => done && exists|c: &mut C| #[trigger]
                                    call_ensures(setter, (c, p as usize, a), ()) && *c == comp && final(self)@
                                        == old(self)@.update(i, (old(self)@[i].0, *final(c))),
                            }
                    } else {
                        !done
                    }
            },
    {
        let i: usize = match self.position(class_name) {
            Some(i) => i,
            None => {
                return false;
            },
        };
        let props = properties(&self.entries[i].1);
        assert(self.entries@[i as int].1 == self@[i as int].1);
        assert(call_ensures(properties, (&self@[i as int].1,), props));
        let p: usize = match find_property(&props, prop_name) {
            Some(p) => p,
            None => {
                return false;
            },
        };
        match deserialize(props[p].type_info, value) {
            Some(a) => {
                match self.entry_mut(i) {
                    Some(c) => setter(c, p, a),
                    None => {},
                }
                proof {
                    let q = first_of(property_names(props@), prop_name@);
                    assert(q as usize == p);
                    assert(exists|c: &mut C| #[trigger]
                        call_ensures(setter, (c, q as usize, a), ()) && *c == old(self)@[i as int].1 && self@
                            == old(self)@.update(i as int, (old(self)@[i as int].0, *final(c))));
                }
                true
            },
            None => false,
        }
    }

    /// Writes the value at an address to a property. Returns whether it was
    /// written: not if there is no such component or property, or if
    /// [`raw_fits`] does not hold of its type, the address and the size.
    ///
    /// The setter gets the identity of the type as which the value is to be
    /// read.
    pub fn set_property_raw<P, S>(
        &mut self,
        class_name: &str,
        prop_name: &str,
        address: usize,
        size: usize,
        properties: P,
        setter: S,
    ) -> (done: bool) where P: Fn(&C) -> Vec<PropertyInfo>, S: Fn(&mut C, usize, TypeIdentity)
        requires
            forall|c: &C| #[trigger] call_requires(properties, (c,)),
            forall|c: &mut C, p: usize, t: TypeIdentity|
                t != TypeIdentity::Other ==> #[trigger] call_requires(setter, (c, p, t)),
        ensures
            !done ==> *final(self) == *old(self),
            !old(self).class_names().contains(class_name@) ==> !done,
            old(self).class_names().contains(class_name@) ==> {
                let i = old(self).find(class_name@);
                let comp = old(self)@[i].1;
                exists|props: Vec<PropertyInfo>| #[trigger]
                    call_ensures(properties, (&comp,), props) && if has_name(
                        property_names(props@),
                        prop_name@,
                    ) {
                        let p = first_of(property_names(props@), prop_name@);
                        &&& done == raw_fits(props@[p].type_info, address, size)
                        &&& done ==> exists|c: &mut C| #[trigger]
                            call_ensures(setter, (c, p as usize, props@[p].type_info.identity), ()) && *c == comp
                                && final(self)@ == old(self)@.update(i, (old(self)@[i].0, *final(c)))
                    } else {
                        !done
                    }
            },
    {
        let i: usize = match self.position(class_name) {
            Some(i) => i,
            None => {
                return false;
            },
        };
        let props = properties(&self.entries[i].1);
        assert(self.entries@[i as int].1 == self@[i as int].1);
        assert(call_ensures(properties, (&self@[i as int].1,), props));
        let p: usize = match find_property(&props, prop_name) {
            Some(p) => p,
            None => {
                return false;
            },
        };
        let info = props[p].type_info;
        if !check_raw(&info, address, size) {
            return false;
        }
        match self.entry_mut(i) {
            Some(c) => setter(c, p, info.identity),
            None => {},
        }
        proof {
            let q = first_of(property_names(props@), prop_name@);
            assert(q as usize == p);
            assert(exists|c: &mut C| #[trigger]
                call_ensures(setter, (c, q as usize, info.identity), ()) && *c == old(self)@[i as int].1 && self@
                    == old(self)@.update(i as int, (old(self)@[i as int].0, *final(c))));
        }
        true
    }
}

/// How many arguments are read: as many as there are both parameters and
/// values.
pub open spec fn arg_count<J>(params: Seq<TypeInfo>, args: Seq<J>) -> int {
    if params.len() <= args.len() {
        params.len() as int
    } else {
        args.len() as int
    }
}

/// As many arguments are read as there are both parameters and values for.
pub proof fn lemma_argument_count<J>(params: Seq<TypeInfo>, args: Seq<J>)
    ensures
        arg_count(params, args) == vstd::math::min(params.len() as int, args.len() as int),
{
}

/// Reads the arguments of a call, up to the first that is not of its
/// parameter's type.
pub fn read_args<J, A, D: Fn(TypeInfo, &J) -> Option<A>>(
    params: &Vec<TypeInfo>,
    args: &Vec<J>,
    deserialize: &D,
) -> (out: Option<Vec<A>>)
    requires
        forall|t: TypeInfo, j: &J| #[trigger] call_requires(deserialize, (t, j)),
    ensures
        match out {
            Some(v) => v@.len() == arg_count(params@, args@) && forall|k: int|
                0 <= k < v@.len() ==> call_ensures(deserialize, (params@[k], &args@[k]), Some(#[trigger] v@[k])),
            None => exists|k: int|
                0 <= k < arg_count(params@, args@) && call_ensures(
                    deserialize,
                    (#[trigger] params@[k], &args@[k]),
                    None,
                ),
        },
{
    let mut v: Vec<A> = Vec::new();
    let mut i: usize = 0;
    while i < params.len() && i < args.len()
        invariant
            i <= params@.len(),
            i <= args@.len(),
            v@.len() == i,
            forall|t: TypeInfo, j: &J| #[trigger] call_requires(deserialize, (t, j)),
            forall|k: int|
                0 <= k < v@.len() ==> call_ensures(deserialize, (params@[k], &args@[k]), Some(#[trigger] v@[k])),
        decreases params@.len() - i,
    {
        match deserialize(params[i], &args[i]) {
            Some(a) => v.push(a),
            None => {
                return None;
            },
        }
        i = i + 1;
    }
    Some(v)
}

impl<C> ComponentStore<C> {
    /// Calls a method of a component with serialized arguments, and returns
    /// its serialized result. `None` if there is no such class, method or
    /// component, if an argument is not of its parameter's type, if the method
    /// returns nothing, or if its result cannot be serialized. The method is not
    /// called unless all arguments were read.
    pub fn call_method_json<J, A, R, M, D, K, S>(
        &mut self,
        class_name: &str,
        method_name: &str,
        args: &Vec<J>,
        methods_of: M,
        deserialize: D,
        caller: K,
        serialize: S,
    ) -> (out: Option<J>) where
        M: Fn(&str) -> Option<Vec<MethodInfo>>,
        D: Fn(TypeInfo, &J) -> Option<A>,
        K: Fn(&mut C, usize, Vec<A>) -> Option<R>,
        S: Fn(&R) -> Option<J>,

        requires
            forall|n: &str| #[trigger] call_requires(methods_of, (n,)),
            forall|t: TypeInfo, j: &J| #[trigger] call_requires(deserialize, (t, j)),
            forall|c: &mut C, m: usize, a: Vec<A>| #[trigger] call_requires(caller, (c, m, a)),
            forall|r: &R| #[trigger] call_requires(serialize, (r,)),
        ensures
            exists|methods: Option<Vec<MethodInfo>>| #[trigger]
                call_ensures(methods_of, (class_name,), methods) && if methods is Some && has_name(
                    method_names(methods->0@),
                    method_name@,
                ) && old(self).class_names().contains(class_name@) {
                        let m = first_of(method_names(methods->0@), method_name@);
                        let i = old(self).find(class_name@);
                        let params = methods->0@[m].params@;
                        ||| {
                            &&& out is None
                            &&& *final(self) == *old(self)
                            &&& exists|k: int|
                                0 <= k < arg_count(params, args@) && call_ensures(
                                    deserialize,
                                    (#[trigger] params[k], &args@[k]),
                                    None,
                                )
                        }
                        ||| exists|values: Vec<A>, c: &mut C, reply: Option<R>| #[trigger]
                            call_ensures(caller, (c, m as usize, values), reply) && {
                                &&& values@.len() == arg_count(params, args@)
                                &&& forall|k: int|
                                    0 <= k < values@.len() ==> call_ensures(
                                        deserialize,
                                        (params[k], &args@[k]),
                                        Some(#[trigger] values@[k]),
                                    )
                                &&& *c == old(self)@[i].1
                                &&& final(self)@ == old(self)@.update(i, (old(self)@[i].0, *final(c)))
                                &&& match reply {
                                    Some(r) => call_ensures(serialize, (&r,), out),
                                    None => out is None,
                                }
                            }
                } else {
                    out is None && *final(self) == *old(self)
                },
    {
        let methods = match methods_of(class_name) {
            Some(methods) => methods,
            None => {
                return None;
            },
        };
        let m: usize = match find_method(&methods, method_name) {
            Some(m) => m,
            None => {
                return None;
            },
        };
        let i: usize = match self.position(class_name) {
            Some(i) => i,
            None => {
                return None;
            },
        };
        let values = match read_args(&methods[m].params, args, &deserialize) {
            Some(values) => values,
            None => {
                return None;
            },
        };
        let reply = match self.entry_mut(i) {
            Some(c) => caller(c, m, values),
            None => {
                return None;
            },
        };
        proof {
            let q = first_of(method_names(methods@), method_name@);
            assert(q as usize == m);
            assert(exists|c: &mut C| #[trigger]
                call_ensures(caller, (c, q as usize, values), reply) && *c == old(self)@[i as int].1 && self@
                    == old(self)@.update(i as int, (old(self)@[i as int].0, *final(c))));
        }
        match reply {
            Some(r) => serialize(&r),
            None => None,
        }
    }
}

/// The states of a component from `first` to `last`, `n` steps apart.
pub open spec fn states_between<C>(states: Seq<C>, n: nat, first: C, last: C) -> bool {
    states.len() == n + 1 && states[0] == first && states[n as int] == last
}

/// One of `n` properties.
pub open spec fn is_property(k: int, n: nat) -> bool {
    0 <= k < n
}

/// Writes the given fields to the properties of the same names, in the order of
/// the properties. A field that is not of its property's type is passed over.
pub fn apply_fields<C, J, A, D, S>(
    instance: &mut C,
    props: &Vec<PropertyInfo>,
    fields: &Vec<(String, J)>,
    deserialize: &D,
    setter: &S,
) where D: Fn(TypeInfo, &J) -> Option<A>, S: Fn(&mut C, usize, A)
    requires
        forall|t: TypeInfo, j: &J| #[trigger] call_requires(deserialize, (t, j)),
        forall|c: &mut C, p: usize, a: A| #[trigger] call_requires(setter, (c, p, a)),
    ensures
        exists|states: Seq<C>| #[trigger]
            states_between(states, props@.len(), *old(instance), *final(instance)) && forall|k: int| #[trigger]
                is_property(k, props@.len()) ==> if has_name(entry_names(fields@), props@[k].name@) {
                    let f = first_of(entry_names(fields@), props@[k].name@);
                    exists|read: Option<A>| #[trigger]
                        call_ensures(deserialize, (props@[k].type_info, &fields@[f].1), read) && match read {
                            None => states[k + 1] == states[k],
                            Some(a) => exists|c: &mut C| #[trigger]
                                call_ensures(setter, (c, k as usize, a), ()) && *c == states[k] && *final(c)
                                    == states[k + 1],
                        }
                } else {
                    states[k + 1] == states[k]
                },
{
    let ghost mut states: Seq<C> = seq![*instance];
    let mut i: usize = 0;
    while i < props.len()
        invariant
            i <= props@.len(),
            forall|t: TypeInfo, j: &J| #[trigger] call_requires(deserialize, (t, j)),
            forall|c: &mut C, p: usize, a: A| #[trigger] call_requires(setter, (c, p, a)),
            states_between(states, i as nat, *old(instance), *instance),
            forall|k: int| #[trigger]
                is_property(k, i as nat) ==> if has_name(entry_names(fields@), props@[k].name@) {
                    let f = first_of(entry_names(fields@), props@[k].name@);
                    exists|read: Option<A>| #[trigger]
                        call_ensures(deserialize, (props@[k].type_info, &fields@[f].1), read) && match read {
                            None => states[k + 1] == states[k],
                            Some(a) => exists|c: &mut C| #[trigger]
                                call_ensures(setter, (c, k as usize, a), ()) && *c == states[k] && *final(c)
                                    == states[k + 1],
                        }
                } else {
                    states[k + 1] == states[k]
                },
        decreases props@.len() - i,
    {
        let ghost before = states;
        let ghost was = *instance;
        if let Some(f) = find_entry(fields, props[i].name.as_str()) {
            let read = deserialize(props[i].type_info, &fields[f].1);
            let ghost reply = read;
            if let Some(a) = read {
                setter(instance, i, a);
                assert(exists|c: &mut C| #[trigger]
                    call_ensures(setter, (c, i as int as usize, a), ()) && *c == was && *final(c) == *instance);
            }
            assert(call_ensures(
                deserialize,
                (
                    props@[i as int].type_info,
                    &fields@[first_of(entry_names(fields@), props@[i as int].name@)].1,
                ),
                reply,
            ));
        }
        proof {
            states = before.push(*instance);
            assert(states[i as int] == was);
            assert(states[i + 1] == *instance);
            assert forall|k: int| #[trigger] is_property(k, (i + 1) as nat) implies if has_name(
                entry_names(fields@),
                props@[k].name@,
            ) {
                let f = first_of(entry_names(fields@), props@[k].name@);
                exists|read: Option<A>| #[trigger]
                    call_ensures(deserialize, (props@[k].type_info, &fields@[f].1), read) && match read {
                        None => states[k + 1] == states[k],
                        Some(a) => exists|c: &mut C| #[trigger]
                            call_ensures(setter, (c, k as usize, a), ()) && *c == states[k] && *final(c) == states[k
                                + 1],
                    }
            } else {
                states[k + 1] == states[k]
            } by {
                if k < i {
                    assert(is_property(k, i as nat));
                    assert(states[k] == before[k]);
                    assert(states[k + 1] == before[k + 1]);
                }
            }
        }
        i = i + 1;
    }
}

impl<C> ComponentStore<C> {
    /// Makes a component of a class with the given fields and adds it. Returns
    /// whether the class is known.
    pub fn add_from_registry<J, A, M, P, D, S>(
        &mut self,
        class_name: &str,
        fields: &Vec<(String, J)>,
        create: M,
        properties: P,
        deserialize: D,
        setter: S,
    ) -> (done: bool) where
        M: Fn(&str) -> Option<C>,
        P: Fn(&C) -> Vec<PropertyInfo>,
        D: Fn(TypeInfo, &J) -> Option<A>,
        S: Fn(&mut C, usize, A),

        requires
            forall|n: &str| #[trigger] call_requires(create, (n,)),
            forall|c: &C| #[trigger] call_requires(properties, (c,)),
            forall|t: TypeInfo, j: &J| #[trigger] call_requires(deserialize, (t, j)),
            forall|c: &mut C, p: usize, a: A| #[trigger] call_requires(setter, (c, p, a)),
        ensures
            exists|made: Option<C>| #[trigger]
                call_ensures(create, (class_name,), made) && match made {
                    None => !done && *final(self) == *old(self),
                    Some(new) => done && exists|props: Vec<PropertyInfo>, states: Seq<C>, last: C| #[trigger]
                        call_ensures(properties, (&new,), props) && #[trigger] states_between(
                            states,
                            props@.len(),
                            new,
                            last,
                        ) && final(self)@ == old(self)@.push((class_name@, last)) && forall|k: int| #[trigger]
                            is_property(k, props@.len()) ==> if has_name(entry_names(fields@), props@[k].name@) {
                                let f = first_of(entry_names(fields@), props@[k].name@);
                                exists|read: Option<A>| #[trigger]
                                    call_ensures(deserialize, (props@[k].type_info, &fields@[f].1), read)
                                        && match read {
                                        None => states[k + 1] == states[k],
                                        Some(a) => exists|c: &mut C| #[trigger]
                                            call_ensures(setter, (c, k as usize, a), ()) && *c == states[k]
                                                && *final(c) == states[k + 1],
                                    }
                            } else {
                                states[k + 1] == states[k]
                            },
                },
    {
        let mut instance = match create(class_name) {
            Some(c) => c,
            None => {
                return false;
            },
        };
        let props = properties(&instance);
        apply_fields(&mut instance, &props, fields, &deserialize, &setter);
        self.add_boxed(class_name.to_owned(), instance);
        true
    }
}

} // verus!
