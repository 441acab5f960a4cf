//! The shell's state: its variables, which of them are exported, the
//! completion rules and the status of the last command.

use vstd::prelude::*;
use crate::text::chars_of;

verus! {

/// How the arguments of a command are completed.
#[derive(Debug)]
pub enum CompSpec {
    List(Vec<String>),
    Command(String),
    File,
    Dir,
}

/// How a command ended: with a status code, or asking the shell to exit.
#[derive(Debug, Clone, Copy, PartialEq, Eq, Structural)]
pub enum ExecStatus {
    Code(i32),
    Exit(i32),
}

/// The value bound to `k` in `s`; the last binding wins.
pub open spec fn assoc_lookup(s: Seq<(String, String)>, k: Seq<char>) -> Option<Seq<char>>
    decreases s.len(),
{
    if s.len() == 0 {
        None
    } else if s.last().0@ == k {
        Some(s.last().1@)
    } else {
        assoc_lookup(s.drop_last(), k)
    }
}

pub open spec fn assoc_map(s: Seq<(String, String)>) -> Map<Seq<char>, Seq<char>> {
    Map::new(|k: Seq<char>| assoc_lookup(s, k) is Some, |k: Seq<char>| assoc_lookup(s, k)->0)
}

pub open spec fn name_set(s: Seq<String>) -> Set<Seq<char>> {
    Set::new(|k: Seq<char>| exists|i: int| 0 <= i < s.len() && #[trigger] s[i]@ == k)
}

proof fn lemma_assoc_push(s: Seq<(String, String)>, e: (String, String), k: Seq<char>)
    ensures
        assoc_lookup(s.push(e), k) == if e.0@ == k {
            Some(e.1@)
        } else {
            assoc_lookup(s, k)
        },
{
    assert(s.push(e).drop_last() =~= s);
}

/// The shell's state.
#[derive(Debug)]
pub struct ShellState {
    pub last_status: i32,
    pub comp_registry: Vec<(String, CompSpec)>,
    pub vars: Vec<(String, String)>,
    pub exported: Vec<String>,
}

/// The value `name` has for the shell: its own variable, else the process
/// environment's `env`.
pub open spec fn var_value(vars: Seq<(String, String)>, env: Seq<(String, String)>, name: Seq<char>) -> Option<
    Seq<char>,
> {
    match assoc_lookup(vars, name) {
        Some(v) => Some(v),
        None => assoc_lookup(env, name),
    }
}

/// The value bound to `name` in `s`, looked up from the end.
pub fn assoc_get(s: &Vec<(String, String)>, name: &str) -> (res: Option<String>)
    ensures
        match res {
            Some(v) => assoc_lookup(s@, name@) == Some(v@),
            None => assoc_lookup(s@, name@) is None,
        },
{
    let key = name.to_owned();
    let mut i = s.len();
    assert(s@.subrange(0, i as int) =~= s@);
    while i > 0
        invariant
            i <= s@.len(),
            key@ == name@,
            assoc_lookup(s@, name@) == assoc_lookup(s@.subrange(0, i as int), name@),
        decreases i,
    {
        assert(s@.subrange(0, i as int).drop_last() =~= s@.subrange(0, i - 1));
        if s[i - 1].0 == key {
            return Some(s[i - 1].1.clone());
        }
        i -= 1;
    }
    None
}

impl ShellState {
    /// The state of a new shell: no variables, nothing exported, no
    /// completion rules, last status 0.
    pub fn new() -> (res: Self)
        ensures
            res.last_status == 0,
            assoc_map(res.vars@) == Map::<Seq<char>, Seq<char>>::empty(),
            name_set(res.exported@) == Set::<Seq<char>>::empty(),
            res.comp_registry@.len() == 0,
    {
        let res = ShellState {
            last_status: 0,
            comp_registry: Vec::new(),
            vars: Vec::new(),
            exported: Vec::new(),
        };
        assert(assoc_map(res.vars@) =~= Map::<Seq<char>, Seq<char>>::empty());
        assert(name_set(res.exported@) =~= Set::<Seq<char>>::empty());
        res
    }

    /// The value of variable `name`: the shell's own, else the one in
    /// `env`, the process environment.
    pub fn get_var(&self, name: &str, env: &Vec<(String, String)>) -> (res: Option<String>)
        ensures
            match res {
                Some(v) => var_value(self.vars@, env@, name@) == Some(v@),
                None => var_value(self.vars@, env@, name@) is None,
            },
    {
        match assoc_get(&self.vars, name) {
            Some(v) => Some(v),
            None => assoc_get(env, name),
        }
    }

    /// Sets the shell variable `name` to `value`.
    pub fn set_var(&mut self, name: String, value: String)
        ensures
            assoc_map(final(self).vars@) == assoc_map(old(self).vars@).insert(name@, value@),
            final(self).exported@ == old(self).exported@,
            final(self).comp_registry@ == old(self).comp_registry@,
            final(self).last_status == old(self).last_status,
    {
        let ghost n = name@;
        let ghost v = value@;
        let ghost before = self.vars@;
        self.vars.push((name, value));
        proof {
            assert forall|k: Seq<char>| #[trigger] assoc_lookup(self.vars@, k) == if k == n {
                Some(v)
            } else {
                assoc_lookup(before, k)
            } by {
                lemma_assoc_push(before, self.vars@.last(), k);
                assert(self.vars@ == before.push(self.vars@.last()));
            }
            assert(assoc_map(self.vars@) =~= assoc_map(before).insert(n, v));
        }
    }

    /// Sets `name` to `value` and marks it exported. The process
    /// environment is updated by the caller.
    pub fn export_var(&mut self, name: String, value: String)
        ensures
            assoc_map(final(self).vars@) == assoc_map(old(self).vars@).insert(name@, value@),
            name_set(final(self).exported@) == name_set(old(self).exported@).insert(name@),
            final(self).last_status == old(self).last_status,
    {
        let ghost before = self.exported@;
        self.exported.push(name.clone());
        proof {
            assert(name_set(self.exported@) =~= name_set(before).insert(name@)) by {
                assert forall|k: Seq<char>| name_set(self.exported@).contains(k) == name_set(
                    before,
                ).insert(name@).contains(k) by {
                    if name_set(before).contains(k) {
                        let i = choose|i: int| 0 <= i < before.len() && #[trigger] before[i]@ == k;
                        assert(self.exported@[i]@ == k);
                    }
                    if k == name@ {
                        assert(self.exported@[before.len() as int]@ == k);
                    }
                    if name_set(self.exported@).contains(k) {
                        let i = choose|i: int| 0 <= i < self.exported@.len() && #[trigger] self.exported@[i]@ == k;
                        if i < before.len() {
                            assert(before[i]@ == k);
                        }
                    }
                }
            }
        }
        self.set_var(name, value);
    }

    /// Removes variable `name` and its export mark. The process environment
    /// is updated by the caller.
    pub fn unset_var(&mut self, name: &str)
        ensures
            assoc_map(final(self).vars@) == assoc_map(old(self).vars@).remove(name@),
            name_set(final(self).exported@) == name_set(old(self).exported@).remove(name@),
            final(self).last_status == old(self).last_status,
    {
        let key = name.to_owned();
        let ghost old_vars = self.vars@;
        let mut kept: Vec<(String, String)> = Vec::new();
        let mut i: usize = 0;
        while i < self.vars.len()
            invariant
                self.vars@ == old_vars,
                key@ == name@,
                i <= old_vars.len(),
                forall|k: Seq<char>|
                    #[trigger] assoc_lookup(kept@, k) == if k == name@ {
                        None
                    } else {
                        assoc_lookup(old_vars.subrange(0, i as int), k)
                    },
            decreases old_vars.len() - i,
        {
            let ghost before = kept@;
            assert(old_vars.subrange(0, i + 1).drop_last() =~= old_vars.subrange(0, i as int));
            if self.vars[i].0 != key {
                kept.push((self.vars[i].0.clone(), self.vars[i].1.clone()));
                proof {
                    assert forall|k: Seq<char>| #[trigger] assoc_lookup(kept@, k) == if k == name@ {
                        None
                    } else {
                        assoc_lookup(old_vars.subrange(0, i + 1), k)
                    } by {
                        lemma_assoc_push(before, kept@.last(), k);
                        assert(kept@ == before.push(kept@.last()));
                    }
                }
            }
            i += 1;
        }
        proof {
            assert(old_vars.subrange(0, old_vars.len() as int) =~= old_vars);
            assert(assoc_map(kept@) =~= assoc_map(old_vars).remove(name@));
        }
        self.vars = kept;
        let ghost old_exp = self.exported@;
        let mut kept_names: Vec<String> = Vec::new();
        let mut j: usize = 0;
        while j < self.exported.len()
            invariant
                self.exported@ == old_exp,
                key@ == name@,
                j <= old_exp.len(),
                forall|k: Seq<char>|
                    name_set(kept_names@).contains(k) <==> k != name@ && (exists|t: int|
                        0 <= t < j && #[trigger] old_exp[t]@ == k),
            decreases old_exp.len() - j,
        {
            let ghost before = kept_names@;
            if self.exported[j] != key {
                kept_names.push(self.exported[j].clone());
            }
            proof {
                assert forall|k: Seq<char>|
                    name_set(kept_names@).contains(k) <==> k != name@ && (exists|t: int|
                        0 <= t < j + 1 && #[trigger] old_exp[t]@ == k) by {
                    if name_set(kept_names@).contains(k) {
                        let t = choose|t: int| 0 <= t < kept_names@.len() && #[trigger] kept_names@[t]@ == k;
                        if t < before.len() {
                            assert(name_set(before).contains(k));
                        } else {
                            assert(old_exp[j as int]@ == k);
                        }
                    }
                    if k != name@ && (exists|t: int| 0 <= t < j + 1 && #[trigger] old_exp[t]@ == k) {
                        let t = choose|t: int| 0 <= t < j + 1 && #[trigger] old_exp[t]@ == k;
                        if t < j {
                            assert(name_set(before).contains(k));
                            let u = choose|u: int| 0 <= u < before.len() && #[trigger] before[u]@ == k;
                            assert(kept_names@[u]@ == k);
                        } else {
                            assert(kept_names@[before.len() as int]@ == k);
                        }
                    }
                }
            }
            j += 1;
        }
        proof {
            assert forall|k: Seq<char>| name_set(kept_names@).contains(k) == name_set(old_exp).remove(
                name@,
            ).contains(k) by {
                if name_set(old_exp).contains(k) {
                    let t = choose|t: int| 0 <= t < old_exp.len() && #[trigger] old_exp[t]@ == k;
                    assert(exists|t: int| 0 <= t < old_exp.len() && #[trigger] old_exp[t]@ == k);
                }
            }
            assert(name_set(kept_names@) =~= name_set(old_exp).remove(name@));
        }
        self.exported = kept_names;
    }
}

/// A name may start with a letter or `_` and go on with letters, digits
/// and `_` (ASCII only).
pub open spec fn is_ident_start(c: char) -> bool {
    ('a' <= c && c <= 'z') || ('A' <= c && c <= 'Z') || c == '_'
}

pub open spec fn is_ident_char(c: char) -> bool {
    is_ident_start(c) || ('0' <= c && c <= '9')
}

pub open spec fn valid_identifier(s: Seq<char>) -> bool {
    &&& s.len() >= 1
    &&& is_ident_start(s[0])
    &&& forall|i: int| 1 <= i < s.len() ==> is_ident_char(#[trigger] s[i])
}

/// Whether `name` can name a shell variable.
pub fn is_valid_identifier(name: &str) -> (res: bool)
    ensures
        res == valid_identifier(name@),
{
    let cs = chars_of(name);
    if cs.len() == 0 {
        return false;
    }
    let c0 = cs[0];
    if !(('a' <= c0 && c0 <= 'z') || ('A' <= c0 && c0 <= 'Z') || c0 == '_') {
        return false;
    }
    let mut i: usize = 1;
    while i < cs.len()
        invariant
            cs@ == name@,
            1 <= i <= cs@.len(),
            forall|j: int| 1 <= j < i ==> is_ident_char(#[trigger] cs@[j]),
        decreases cs.len() - i,
    {
        let c = cs[i];
        if !(('a' <= c && c <= 'z') || ('A' <= c && c <= 'Z') || c == '_' || ('0' <= c && c <= '9')) {
            return false;
        }
        i += 1;
    }
    true
}

} // verus!
