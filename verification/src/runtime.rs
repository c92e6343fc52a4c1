//! The mutable execution environment: a flat mapping from variable
//! names to values and a mapping from function names to definitions.
//!
//! Missing variable reads are never errors: they yield `Nil`. Function
//! definition overwrites any prior definition of the same name. Both
//! tables are association lists with unique keys; every contract is
//! stated pointwise through [`lookup`].

use std::rc::Rc;

use vstd::prelude::*;

use crate::ast::FunDef;
use crate::text::chars_eq;
use crate::value::{Val, Value};

verus! {

broadcast use vstd::std_specs::vec::group_vec_axioms;

/// The environment owned by one run: variables and functions.
pub struct Runtime {
    vars: Vec<(Vec<char>, Value)>,
    funcs: Vec<(Vec<char>, Rc<FunDef>)>,
}

/// Relies on `Rc::clone` from std: the returned handle is the same
/// shared value as the argument.
#[verifier::external_body]
pub(crate) fn rc_clone<T>(rc: &Rc<T>) -> (r: Rc<T>)
    ensures
        r == *rc,
{
    Rc::clone(rc)
}

/// No two entries bind the same name.
pub open spec fn keys_unique<T>(entries: Seq<(Vec<char>, T)>) -> bool {
    forall|i: int, j: int|
        0 <= i < j < entries.len() ==> (#[trigger] entries[i]).0@ != (#[trigger] entries[j]).0@
}

/// The binding of a name in an association list, later entries first.
pub open spec fn lookup<T>(entries: Seq<(Vec<char>, T)>, k: Seq<char>) -> Option<T>
    decreases entries.len(),
{
    if entries.len() == 0 {
        None
    } else if entries.last().0@ == k {
        Some(entries.last().1)
    } else {
        lookup(entries.drop_last(), k)
    }
}

proof fn lemma_lookup_absent<T>(entries: Seq<(Vec<char>, T)>, k: Seq<char>)
    requires
        forall|i: int| 0 <= i < entries.len() ==> (#[trigger] entries[i]).0@ != k,
    ensures
        lookup(entries, k) is None,
    decreases entries.len(),
{
    if entries.len() > 0 {
        lemma_lookup_absent(entries.drop_last(), k);
    }
}

proof fn lemma_lookup_found<T>(entries: Seq<(Vec<char>, T)>, i: int)
    requires
        keys_unique(entries),
        0 <= i < entries.len(),
    ensures
        lookup(entries, entries[i].0@) == Some(entries[i].1),
    decreases entries.len(),
{
    if i < entries.len() - 1 {
        assert(entries.last().0@ != entries[i].0@);
        assert(keys_unique(entries.drop_last()));
        lemma_lookup_found(entries.drop_last(), i);
    }
}

proof fn lemma_lookup_update<T>(entries: Seq<(Vec<char>, T)>, i: int, e: (Vec<char>, T), k: Seq<char>)
    requires
        keys_unique(entries),
        0 <= i < entries.len(),
        e.0@ == entries[i].0@,
    ensures
        lookup(entries.update(i, e), k) == if k == e.0@ {
            Some(e.1)
        } else {
            lookup(entries, k)
        },
    decreases entries.len(),
{
    let updated = entries.update(i, e);
    if i == entries.len() - 1 {
        assert(updated.last() == e);
        assert(updated.drop_last() =~= entries.drop_last());
    } else {
        assert(updated.last() == entries.last());
        assert(updated.drop_last() =~= entries.drop_last().update(i, e));
        assert(entries.last().0@ != entries[i].0@);
        assert(keys_unique(entries.drop_last()));
        lemma_lookup_update(entries.drop_last(), i, e, k);
    }
}

proof fn lemma_lookup_remove<T>(entries: Seq<(Vec<char>, T)>, i: int, k: Seq<char>)
    requires
        keys_unique(entries),
        0 <= i < entries.len(),
    ensures
        lookup(entries.remove(i), k) == if k == entries[i].0@ {
            None::<T>
        } else {
            lookup(entries, k)
        },
    decreases entries.len(),
{
    let shrunk = entries.remove(i);
    if i == entries.len() - 1 {
        assert(shrunk =~= entries.drop_last());
        if k == entries[i].0@ {
            assert(forall|j: int|
                0 <= j < entries.len() - 1 ==> (#[trigger] entries[j]).0@ != entries[i].0@);
            assert(forall|j: int|
                0 <= j < shrunk.len() ==> (#[trigger] shrunk[j]).0@ != entries[i].0@);
            lemma_lookup_absent(shrunk, k);
        }
    } else {
        assert(shrunk.last() == entries.last());
        assert(shrunk.drop_last() =~= entries.drop_last().remove(i));
        assert(entries.last().0@ != entries[i].0@);
        assert(keys_unique(entries.drop_last()));
        lemma_lookup_remove(entries.drop_last(), i, k);
    }
}

impl Runtime {
    /// Both tables bind each name at most once.
    pub closed spec fn wf(self) -> bool {
        keys_unique(self.vars@) && keys_unique(self.funcs@)
    }

    /// The value a variable read yields: the bound value, or `Nil` for a
    /// name that is not bound.
    pub closed spec fn var_at(self, name: Seq<char>) -> Val {
        match lookup(self.vars@, name) {
            Some(v) => v.model(),
            None => Val::Nil,
        }
    }

    /// Whether a variable is currently bound.
    pub closed spec fn has_var(self, name: Seq<char>) -> bool {
        lookup(self.vars@, name) is Some
    }

    /// The definition a function name is bound to, if any.
    pub closed spec fn fun_at(self, name: Seq<char>) -> Option<Rc<FunDef>> {
        lookup(self.funcs@, name)
    }

    /// A fresh environment: no variables, no functions.
    pub fn new() -> (r: Runtime)
        ensures
            r.wf(),
            forall|n: Seq<char>| r.var_at(n) == Val::Nil && !r.has_var(n),
            forall|n: Seq<char>| r.fun_at(n) is None,
    {
        Runtime { vars: Vec::new(), funcs: Vec::new() }
    }

    fn find_var(&self, name: &Vec<char>) -> (r: Option<usize>)
        ensures
            match r {
                Some(i) => i < self.vars@.len() && self.vars@[i as int].0@ == name@,
                None => forall|i: int|
                    0 <= i < self.vars@.len() ==> (#[trigger] self.vars@[i]).0@ != name@,
            },
    {
        let mut i: usize = 0;
        while i < self.vars.len()
            invariant
                i <= self.vars@.len(),
                forall|j: int| 0 <= j < i ==> (#[trigger] self.vars@[j]).0@ != name@,
            decreases self.vars@.len() - i,
        {
            if chars_eq(&self.vars[i].0, name) {
                return Some(i);
            }
            i = i + 1;
        }
        None
    }

    /// Read a variable; an unbound name yields `Nil`, never an error.
    pub fn get_var(&self, name: &Vec<char>) -> (r: Value)
        requires
            self.wf(),
        ensures
            r@ == self.var_at(name@),
    {
        match self.find_var(name) {
            Some(i) => {
                proof {
                    lemma_lookup_found(self.vars@, i as int);
                }
                self.vars[i].1.clone()
            }
            None => {
                proof {
                    lemma_lookup_absent(self.vars@, name@);
                }
                Value::Nil
            }
        }
    }

    /// Bind a variable; the last write wins.
    pub fn set_var(&mut self, name: Vec<char>, v: Value)
        requires
            old(self).wf(),
        ensures
            final(self).wf(),
            forall|n: Seq<char>|
                #![auto]
                final(self).var_at(n) == if n == name@ {
                    v@
                } else {
                    old(self).var_at(n)
                },
            forall|n: Seq<char>|
                #![auto]
                final(self).has_var(n) == (n == name@ || old(self).has_var(n)),
            forall|n: Seq<char>| #![auto] final(self).fun_at(n) == old(self).fun_at(n),
    {
        let ghost gname = name@;
        let ghost gv = v;
        match self.find_var(&name) {
            Some(i) => {
                self.vars[i] = (name, v);
                proof {
                    let e = self.vars@[i as int];
                    assert(e.0@ == gname && e.1 == gv);
                    assert forall|n: Seq<char>|
                        #![auto]
                        lookup(self.vars@, n) == if n == gname {
                            Some(gv)
                        } else {
                            lookup(old(self).vars@, n)
                        } by {
                        lemma_lookup_update(old(self).vars@, i as int, e, n);
                    }
                    assert(keys_unique(self.vars@)) by {
                        assert forall|p: int, q: int|
                            0 <= p < q < self.vars@.len() implies (#[trigger] self.vars@[p]).0@
                            != (#[trigger] self.vars@[q]).0@ by {
                            assert(self.vars@[p].0@ == old(self).vars@[p].0@);
                            assert(self.vars@[q].0@ == old(self).vars@[q].0@);
                        }
                    }
                }
            }
            None => {
                self.vars.push((name, v));
                proof {
                    assert(self.vars@.drop_last() =~= old(self).vars@);
                    assert(self.vars@.last().0@ == gname && self.vars@.last().1 == gv);
                    assert forall|n: Seq<char>|
                        #![auto]
                        lookup(self.vars@, n) == if n == gname {
                            Some(gv)
                        } else {
                            lookup(old(self).vars@, n)
                        } by {
                        assert(self.vars@.len() > 0);
                    }
                    assert(keys_unique(self.vars@)) by {
                        assert forall|p: int, q: int|
                            0 <= p < q < self.vars@.len() implies (#[trigger] self.vars@[p]).0@
                            != (#[trigger] self.vars@[q]).0@ by {
                            if q == self.vars@.len() - 1 {
                                assert(self.vars@[p] == old(self).vars@[p]);
                            } else {
                                assert(self.vars@[p] == old(self).vars@[p]);
                                assert(self.vars@[q] == old(self).vars@[q]);
                            }
                        }
                    }
                }
            }
        }
    }

    /// Unbind a variable; unbinding an unbound name changes nothing.
    pub fn remove_var(&mut self, name: &Vec<char>)
        requires
            old(self).wf(),
        ensures
            final(self).wf(),
            forall|n: Seq<char>|
                #![auto]
                final(self).var_at(n) == if n == name@ {
                    Val::Nil
                } else {
                    old(self).var_at(n)
                },
            forall|n: Seq<char>|
                #![auto]
                final(self).has_var(n) == (n != name@ && old(self).has_var(n)),
            forall|n: Seq<char>| #![auto] final(self).fun_at(n) == old(self).fun_at(n),
    {
        let ghost gname = name@;
        match self.find_var(name) {
            Some(i) => {
                self.vars.remove(i);
                proof {
                    assert forall|n: Seq<char>|
                        #![auto]
                        lookup(self.vars@, n) == if n == gname {
                            None::<Value>
                        } else {
                            lookup(old(self).vars@, n)
                        } by {
                        lemma_lookup_remove(old(self).vars@, i as int, n);
                    }
                    assert(keys_unique(self.vars@)) by {
                        assert forall|p: int, q: int|
                            0 <= p < q < self.vars@.len() implies (#[trigger] self.vars@[p]).0@
                            != (#[trigger] self.vars@[q]).0@ by {
                            let p0 = if p < i { p } else { p + 1 };
                            let q0 = if q < i { q } else { q + 1 };
                            assert(self.vars@[p] == old(self).vars@[p0]);
                            assert(self.vars@[q] == old(self).vars@[q0]);
                        }
                    }
                }
            }
            None => {
                proof {
                    lemma_lookup_absent(self.vars@, gname);
                }
            }
        }
    }

    fn find_fun(&self, name: &Vec<char>) -> (r: Option<usize>)
        ensures
            match r {
                Some(i) => i < self.funcs@.len() && self.funcs@[i as int].0@ == name@,
                None => forall|i: int|
                    0 <= i < self.funcs@.len() ==> (#[trigger] self.funcs@[i]).0@ != name@,
            },
    {
        let mut i: usize = 0;
        while i < self.funcs.len()
            invariant
                i <= self.funcs@.len(),
                forall|j: int| 0 <= j < i ==> (#[trigger] self.funcs@[j]).0@ != name@,
            decreases self.funcs@.len() - i,
        {
            if chars_eq(&self.funcs[i].0, name) {
                return Some(i);
            }
            i = i + 1;
        }
        None
    }

    /// Define a function; a redefinition replaces the prior one.
    pub fn define_function(&mut self, name: Vec<char>, fun: Rc<FunDef>)
        requires
            old(self).wf(),
        ensures
            final(self).wf(),
            forall|n: Seq<char>|
                #![auto]
                final(self).var_at(n) == old(self).var_at(n) && final(self).has_var(n)
                    == old(self).has_var(n),
            forall|n: Seq<char>|
                #![auto]
                n != name@ ==> final(self).fun_at(n) == old(self).fun_at(n),
            final(self).fun_at(name@) == Some(fun),
    {
        let ghost gname = name@;
        let def = fun;
        match self.find_fun(&name) {
            Some(i) => {
                self.funcs[i] = (name, def);
                proof {
                    let e = self.funcs@[i as int];
                    assert forall|n: Seq<char>|
                        #![auto]
                        lookup(self.funcs@, n) == if n == gname {
                            Some(e.1)
                        } else {
                            lookup(old(self).funcs@, n)
                        } by {
                        lemma_lookup_update(old(self).funcs@, i as int, e, n);
                    }
                    assert(keys_unique(self.funcs@)) by {
                        assert forall|p: int, q: int|
                            0 <= p < q < self.funcs@.len() implies (#[trigger] self.funcs@[p]).0@
                            != (#[trigger] self.funcs@[q]).0@ by {
                            assert(self.funcs@[p].0@ == old(self).funcs@[p].0@);
                            assert(self.funcs@[q].0@ == old(self).funcs@[q].0@);
                        }
                    }
                }
            }
            None => {
                self.funcs.push((name, def));
                proof {
                    assert(self.funcs@.drop_last() =~= old(self).funcs@);
                    assert forall|n: Seq<char>|
                        #![auto]
                        lookup(self.funcs@, n) == if n == gname {
                            Some(self.funcs@.last().1)
                        } else {
                            lookup(old(self).funcs@, n)
                        } by {
                        assert(self.funcs@.len() > 0);
                    }
                    assert(keys_unique(self.funcs@)) by {
                        assert forall|p: int, q: int|
                            0 <= p < q < self.funcs@.len() implies (#[trigger] self.funcs@[p]).0@
                            != (#[trigger] self.funcs@[q]).0@ by {
                            if q == self.funcs@.len() - 1 {
                                assert(self.funcs@[p] == old(self).funcs@[p]);
                            } else {
                                assert(self.funcs@[p] == old(self).funcs@[p]);
                                assert(self.funcs@[q] == old(self).funcs@[q]);
                            }
                        }
                    }
                }
            }
        }
    }

    /// Look up a function without side effects.
    pub fn get_function(&self, name: &Vec<char>) -> (r: Option<Rc<FunDef>>)
        requires
            self.wf(),
        ensures
            r == self.fun_at(name@),
    {
        match self.find_fun(name) {
            Some(i) => {
                proof {
                    lemma_lookup_found(self.funcs@, i as int);
                }
                Some(rc_clone(&self.funcs[i].1))
            }
            None => {
                proof {
                    lemma_lookup_absent(self.funcs@, name@);
                }
                None
            }
        }
    }
}

} // verus!
