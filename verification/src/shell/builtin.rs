//! The builtin commands: recognising them, the `type` builtin's answer and
//! what the completion of a builtin's arguments draws on.

use vstd::prelude::*;
use vstd::string::StringExecFns;
use crate::shell::runtime::{
    assoc_get, assoc_lookup, assoc_map, name_set, valid_identifier, ExecStatus, ShellState, is_valid_identifier,
};
use crate::text::{append_str, chars_of, str_eq, string_of};
use crate::tools::comm::{sort_file, sorted_texts, text_order, texts};

verus! {

/// A builtin command.
#[derive(Debug, Clone, Copy, PartialEq, Eq, Structural)]
pub enum BuiltinCmd {
    Cd,
    Complete,
    Echo,
    Exit,
    Export,
    Pwd,
    Type,
    Unset,
}

/// The builtin called `name`, if any.
pub open spec fn builtin_named(name: Seq<char>) -> Option<BuiltinCmd> {
    if name == "cd"@ {
        Some(BuiltinCmd::Cd)
    } else if name == "complete"@ {
        Some(BuiltinCmd::Complete)
    } else if name == "echo"@ {
        Some(BuiltinCmd::Echo)
    } else if name == "exit"@ {
        Some(BuiltinCmd::Exit)
    } else if name == "export"@ {
        Some(BuiltinCmd::Export)
    } else if name == "pwd"@ {
        Some(BuiltinCmd::Pwd)
    } else if name == "type"@ {
        Some(BuiltinCmd::Type)
    } else if name == "unset"@ {
        Some(BuiltinCmd::Unset)
    } else {
        None
    }
}

/// The builtin called `name`, if any.
pub fn get(name: &str) -> (res: Option<BuiltinCmd>)
    ensures
        res == builtin_named(name@),
{
    if str_eq(name, "cd") {
        Some(BuiltinCmd::Cd)
    } else if str_eq(name, "complete") {
        Some(BuiltinCmd::Complete)
    } else if str_eq(name, "echo") {
        Some(BuiltinCmd::Echo)
    } else if str_eq(name, "exit") {
        Some(BuiltinCmd::Exit)
    } else if str_eq(name, "export") {
        Some(BuiltinCmd::Export)
    } else if str_eq(name, "pwd") {
        Some(BuiltinCmd::Pwd)
    } else if str_eq(name, "type") {
        Some(BuiltinCmd::Type)
    } else if str_eq(name, "unset") {
        Some(BuiltinCmd::Unset)
    } else {
        None
    }
}

/// What a command name resolves to.
#[derive(Debug)]
pub enum CommandKind {
    Builtin,
    External { name: String, path: String },
    NotFound,
}

/// What a builtin printed and how it ended.
#[derive(Debug)]
pub struct BuiltinOutput {
    pub stdout: String,
    pub stderr: String,
    pub status: ExecStatus,
}

/// The `type` builtin: says what its first argument is, given `kind`, what
/// that argument resolves to.
pub fn run(args: &[String], kind: &CommandKind) -> (res: BuiltinOutput)
    ensures
        args@.len() == 0 ==> res.stdout@ == Seq::<char>::empty() && res.stderr@
            == "type: missing argument\n"@ && res.status == ExecStatus::Code(1),
        args@.len() > 0 ==> res.stderr@ == Seq::<char>::empty() && match kind {
            CommandKind::Builtin => res.stdout@ == args@[0]@ + " is a shell builtin\n"@
                && res.status == ExecStatus::Code(0),
            CommandKind::External { name, path } => res.stdout@ == name@ + " is "@ + path@ + "\n"@
                && res.status == ExecStatus::Code(0),
            CommandKind::NotFound => res.stdout@ == args@[0]@ + ": not found\n"@ && res.status
                == ExecStatus::Code(1),
        },
{
    if args.len() == 0 {
        return BuiltinOutput {
            stdout: String::new(),
            stderr: String::from_str("type: missing argument\n"),
            status: ExecStatus::Code(1),
        };
    }
    let arg = &args[0];
    match kind {
        CommandKind::Builtin => {
            let mut out = arg.clone();
            out.append(" is a shell builtin\n");
            BuiltinOutput { stdout: out, stderr: String::new(), status: ExecStatus::Code(0) }
        },
        CommandKind::External { name, path } => {
            let mut out = name.clone();
            out.append(" is ");
            out.append(path.as_str());
            out.append("\n");
            BuiltinOutput { stdout: out, stderr: String::new(), status: ExecStatus::Code(0) }
        },
        CommandKind::NotFound => {
            let mut out = arg.clone();
            out.append(": not found\n");
            BuiltinOutput { stdout: out, stderr: String::new(), status: ExecStatus::Code(1) }
        },
    }
}

/// Where the completions of a builtin's argument come from.
#[derive(Debug)]
pub enum CompletionSource {
    /// Paths starting with `prefix`; directories only when `dirs_only`.
    Path { prefix: String, dirs_only: bool },
    /// Names of environment variables starting with `prefix`.
    Env { prefix: String },
}

/// `s` without its leading run of `$`.
pub open spec fn drop_dollars(s: Seq<char>) -> Seq<char>
    decreases s.len(),
{
    if s.len() > 0 && s[0] == '$' {
        drop_dollars(s.drop_first())
    } else {
        s
    }
}

/// Chooses how the argument `prefix` of the builtin `cmd` is completed:
/// `cd` completes directories; `export` and `unset` complete environment
/// variable names, the prefix taken without its leading `$`s; any other
/// command completes paths.
pub fn complete_builtin(cmd: &str, prefix: &str) -> (res: CompletionSource)
    ensures
        cmd@ == "cd"@ ==> (res matches CompletionSource::Path { prefix: p, dirs_only } && p@
            == prefix@ && dirs_only),
        (cmd@ == "export"@ || cmd@ == "unset"@) ==> (res matches CompletionSource::Env { prefix: p }
            && p@ == drop_dollars(prefix@)),
        cmd@ != "cd"@ && cmd@ != "export"@ && cmd@ != "unset"@ ==> (res matches CompletionSource::Path {
            prefix: p,
            dirs_only,
        } && p@ == prefix@ && !dirs_only),
{
    proof {
        reveal_strlit("cd");
        reveal_strlit("export");
        reveal_strlit("unset");
        assert("cd"@.len() == 2);
        assert("export"@.len() == 6);
        assert("unset"@.len() == 5);
    }
    if str_eq(cmd, "cd") {
        CompletionSource::Path { prefix: prefix.to_owned(), dirs_only: true }
    } else if str_eq(cmd, "export") || str_eq(cmd, "unset") {
        let cs = chars_of(prefix);
        let mut i: usize = 0;
        assert(cs@.subrange(0, cs@.len() as int) =~= cs@);
        while i < cs.len() && cs[i] == '$'
            invariant
                i <= cs@.len(),
                drop_dollars(prefix@) == drop_dollars(cs@.subrange(i as int, cs@.len() as int)),
                cs@ == prefix@,
            decreases cs.len() - i,
        {
            assert(cs@.subrange(i as int, cs@.len() as int).drop_first() =~= cs@.subrange(
                i + 1,
                cs@.len() as int,
            ));
            i += 1;
        }
        assert(drop_dollars(cs@.subrange(i as int, cs@.len() as int)) == cs@.subrange(
            i as int,
            cs@.len() as int,
        ));
        CompletionSource::Env { prefix: string_of(cs.as_slice(), i, cs.len()) }
    } else {
        CompletionSource::Path { prefix: prefix.to_owned(), dirs_only: false }
    }
}

// ------------------------------------------------------------------------
// cd
// ------------------------------------------------------------------------

/// `rest` appended to the path `base` as `Path::join` does on Unix: an
/// absolute `rest` replaces `base`, otherwise a separator goes between them
/// unless `base` is empty or already ends with one.
pub open spec fn join_path(base: Seq<char>, rest: Seq<char>) -> Seq<char> {
    if rest.len() > 0 && rest[0] == '/' {
        rest
    } else if base.len() == 0 {
        rest
    } else if base.last() == '/' {
        base + rest
    } else {
        base + "/"@ + rest
    }
}

/// The directory `cd arg` goes to: home for the empty argument and `~`,
/// home joined with the rest for `~/rest`, the argument itself otherwise.
pub open spec fn cd_path(arg: Seq<char>, home: Seq<char>) -> Seq<char> {
    if arg.len() == 0 || arg == "~"@ {
        home
    } else if arg.len() >= 2 && arg[0] == '~' && arg[1] == '/' {
        join_path(home, arg.skip(2))
    } else {
        arg
    }
}

fn join_path_exec(base: &str, rest: &[char]) -> (res: String)
    ensures
        res@ == join_path(base@, rest@),
{
    let b = chars_of(base);
    let r = string_of(rest, 0, rest.len());
    proof {
        assert(rest@.subrange(0, rest@.len() as int) =~= rest@);
    }
    if rest.len() > 0 && rest[0] == '/' {
        r
    } else if b.len() == 0 {
        r
    } else if b[b.len() - 1] == '/' {
        let mut s = base.to_owned();
        append_str(&mut s, r.as_str());
        s
    } else {
        let mut s = base.to_owned();
        append_str(&mut s, "/");
        append_str(&mut s, r.as_str());
        s
    }
}

/// Where `cd` with `args` goes, given the home directory: an error when
/// there is no home directory or more than one argument.
pub fn cd_target(args: &[String], home: Option<String>) -> (res: Result<String, String>)
    ensures
        home is None ==> (res matches Err(m) && m@ == "cd: HOME is not defined in the environment"@),
        home is Some && args@.len() > 1 ==> (res matches Err(m) && m@ == "cd: too many arguments"@),
        home is Some && args@.len() == 0 ==> (res matches Ok(p) && p@ == home->Some_0@),
        home is Some && args@.len() == 1 ==> (res matches Ok(p) && p@ == cd_path(
            args@[0]@,
            home->Some_0@,
        )),
{
    let home = match home {
        Some(h) => h,
        None => {
            return Err(String::from_str("cd: HOME is not defined in the environment"));
        },
    };
    if args.len() > 1 {
        return Err(String::from_str("cd: too many arguments"));
    }
    if args.len() == 0 {
        return Ok(home);
    }
    let a = chars_of(args[0].as_str());
    proof {
        reveal_strlit("~");
    }
    if a.len() == 0 || (a.len() == 1 && a[0] == '~') {
        assert(a@.len() == 1 && a@[0] == '~' ==> a@ =~= "~"@);
        return Ok(home);
    }
    if a.len() >= 2 && a[0] == '~' && a[1] == '/' {
        let rest = vstd::slice::slice_subrange(a.as_slice(), 2, a.len());
        assert(rest@ =~= a@.skip(2));
        return Ok(join_path_exec(home.as_str(), rest));
    }
    assert(a@.len() == 1 ==> a@ != "~"@);
    Ok(args[0].clone())
}

// ------------------------------------------------------------------------
// export
// ------------------------------------------------------------------------

/// The position of the first `=` in `s` at or after `i`.
pub open spec fn first_eq_from(s: Seq<char>, i: int) -> Option<int>
    decreases s.len() - i,
{
    if i < 0 || i >= s.len() {
        None
    } else if s[i] == '=' {
        Some(i)
    } else {
        first_eq_from(s, i + 1)
    }
}

/// The name and value an `export` argument sets: `name=value` split at the
/// first `=`; a bare name keeps the value it has (its own, else the
/// environment's, else empty).
pub open spec fn export_pair(
    a: Seq<char>,
    vars: Map<Seq<char>, Seq<char>>,
    env: Seq<(String, String)>,
) -> (Seq<char>, Seq<char>) {
    match first_eq_from(a, 0) {
        Some(i) => (a.subrange(0, i), a.subrange(i + 1, a.len() as int)),
        None => (
            a,
            if vars.contains_key(a) {
                vars[a]
            } else {
                match assoc_lookup(env, a) {
                    Some(v) => v,
                    None => Seq::empty(),
                }
            },
        ),
    }
}

pub open spec fn not_identifier_message(name: Seq<char>) -> Seq<char> {
    "export: '"@ + name + "': not a valid identifier"@
}

/// What `export` with arguments does, in order, to the variables and the
/// exported names: the state after the arguments up to the first bad name,
/// and the message for that name, if any.
pub open spec fn export_outcome(
    args: Seq<Seq<char>>,
    vars: Map<Seq<char>, Seq<char>>,
    exp: Set<Seq<char>>,
    env: Seq<(String, String)>,
) -> (Map<Seq<char>, Seq<char>>, Set<Seq<char>>, Option<Seq<char>>)
    decreases args.len(),
{
    if args.len() == 0 {
        (vars, exp, None)
    } else {
        let (name, value) = export_pair(args[0], vars, env);
        if !valid_identifier(name) {
            (vars, exp, Some(not_identifier_message(name)))
        } else {
            export_outcome(args.drop_first(), vars.insert(name, value), exp.insert(name), env)
        }
    }
}

pub open spec fn texts_of(v: Seq<String>) -> Seq<Seq<char>> {
    v.map_values(|s: String| s@)
}

/// Runs `export` with arguments against the shell's state, `env` being the
/// process environment; gives the message for a bad name, if any. The
/// process environment is updated by the caller.
pub fn export_assignments(args: &[String], state: &mut ShellState, env: &Vec<(String, String)>) -> (res:
    Option<String>)
    ensures
        assoc_map(final(state).vars@) == export_outcome(
            texts_of(args@),
            assoc_map(old(state).vars@),
            name_set(old(state).exported@),
            env@,
        ).0,
        name_set(final(state).exported@) == export_outcome(
            texts_of(args@),
            assoc_map(old(state).vars@),
            name_set(old(state).exported@),
            env@,
        ).1,
        match export_outcome(
            texts_of(args@),
            assoc_map(old(state).vars@),
            name_set(old(state).exported@),
            env@,
        ).2 {
            Some(m) => res matches Some(r) && r@ == m,
            None => res is None,
        },
        final(state).last_status == old(state).last_status,
{
    let ghost all = texts_of(args@);
    let ghost want = export_outcome(all, assoc_map(state.vars@), name_set(state.exported@), env@);
    let mut i: usize = 0;
    assert(all.skip(0) =~= all);
    while i < args.len()
        invariant
            i <= args@.len(),
            all == texts_of(args@),
            want == export_outcome(all.skip(i as int), assoc_map(state.vars@), name_set(state.exported@), env@),
            want == export_outcome(all, assoc_map(old(state).vars@), name_set(old(state).exported@), env@),
            state.last_status == old(state).last_status,
        decreases args.len() - i,
    {
        let ghost rest = all.skip(i as int);
        assert(rest[0] == args@[i as int]@);
        assert(rest.drop_first() =~= all.skip(i + 1));
        let a = chars_of(args[i].as_str());
        let mut k: usize = 0;
        while k < a.len() && a[k] != '='
            invariant
                a@ == args@[i as int]@,
                k <= a@.len(),
                first_eq_from(a@, 0) == first_eq_from(a@, k as int),
            decreases a.len() - k,
        {
            k += 1;
        }
        let (name, value) = if k < a.len() {
            (string_of(a.as_slice(), 0, k), string_of(a.as_slice(), k + 1, a.len()))
        } else {
            let v = match state.get_var(args[i].as_str(), env) {
                Some(v) => v,
                None => String::new(),
            };
            proof {
                assert(a@.subrange(0, a@.len() as int) =~= a@);
                let vm = assoc_map(state.vars@);
                if vm.contains_key(a@) {
                    assert(assoc_lookup(state.vars@, a@) is Some);
                } else {
                    assert(assoc_lookup(state.vars@, a@) is None);
                }
            }
            (string_of(a.as_slice(), 0, a.len()), v)
        };
        assert((name@, value@) == export_pair(rest[0], assoc_map(state.vars@), env@));
        if !is_valid_identifier(name.as_str()) {
            let mut m = String::from_str("export: '");
            append_str(&mut m, name.as_str());
            append_str(&mut m, "': not a valid identifier");
            return Some(m);
        }
        state.export_var(name, value);
        i += 1;
    }
    None
}

/// The line `export` without arguments prints for an exported name.
pub open spec fn declare_line(name: Seq<char>, vars: Map<Seq<char>, Seq<char>>) -> Seq<char> {
    "declare -x "@ + name + "=\""@ + (if vars.contains_key(name) {
        vars[name]
    } else {
        Seq::empty()
    }) + "\""@
}

/// The exported names in order, each once.
pub open spec fn ordered_names(ns: Seq<Seq<char>>, names: Set<Seq<char>>) -> bool {
    &&& sorted_texts(ns)
    &&& forall|i: int| 0 <= i < ns.len() - 1 ==> ns[i] != #[trigger] ns[i + 1]
    &&& ns.to_set() == names
}

/// What `export` without arguments prints: a `declare -x` line for each
/// exported name, in order.
pub fn export_listing(state: &ShellState) -> (res: Vec<String>)
    ensures
        exists|ns: Seq<Seq<char>>|
            ordered_names(ns, name_set(state.exported@)) && texts(res@) == ns.map_values(
                |n: Seq<char>| declare_line(n, assoc_map(state.vars@)),
            ),
{
    let mut names: Vec<String> = Vec::new();
    let mut i: usize = 0;
    while i < state.exported.len()
        invariant
            i <= state.exported@.len(),
            texts(names@) == texts(state.exported@).subrange(0, i as int),
        decreases state.exported.len() - i,
    {
        let ghost before = names@;
        let n = state.exported[i].as_str().to_owned();
        names.push(n);
        assert(texts(names@) =~= texts(before).push(n@));
        assert(texts(names@) =~= texts(state.exported@).subrange(0, i + 1));
        i += 1;
    }
    assert(texts(state.exported@).subrange(0, i as int) =~= texts(state.exported@));
    let sorted = sort_file(names, false);
    let ghost st = texts(sorted@);
    let ghost vm = assoc_map(state.vars@);
    let mut lines: Vec<String> = Vec::new();
    let ghost mut kept: Seq<Seq<char>> = Seq::empty();
    let ghost mut idx: Seq<int> = Seq::empty();
    let mut j: usize = 0;
    while j < sorted.len()
        invariant
            j <= sorted@.len(),
            st == texts(sorted@),
            sorted_texts(st),
            vm == assoc_map(state.vars@),
            kept.len() == idx.len(),
            forall|t: int| 0 <= t < idx.len() ==> 0 <= #[trigger] idx[t] < j && kept[t] == st[idx[t]],
            forall|t: int, u: int| 0 <= t < u < idx.len() ==> idx[t] < idx[u],
            forall|t: int| 0 <= t < kept.len() - 1 ==> kept[t] != #[trigger] kept[t + 1],
            j > 0 ==> kept.len() > 0 && kept.last() == st[j - 1],
            kept.to_set() == st.subrange(0, j as int).to_set(),
            texts(lines@) == kept.map_values(|n: Seq<char>| declare_line(n, vm)),
        decreases sorted.len() - j,
    {
        let fresh = j == 0 || !str_eq(sorted[j].as_str(), sorted[j - 1].as_str());
        let ghost old_kept = kept;
        let ghost old_lines = lines@;
        if fresh {
            let name = &sorted[j];
            let mut line = String::from_str("declare -x ");
            append_str(&mut line, name.as_str());
            append_str(&mut line, "=\"");
            match assoc_get(&state.vars, name.as_str()) {
                Some(v) => append_str(&mut line, v.as_str()),
                None => {},
            }
            append_str(&mut line, "\"");
            proof {
                if vm.contains_key(name@) {
                    assert(assoc_lookup(state.vars@, name@) is Some);
                }
                assert(line@ =~= declare_line(st[j as int], vm));
            }
            lines.push(line);
            proof {
                if j > 0 {
                    assert(st[j - 1] == sorted@[j - 1]@);
                    assert(old_kept.last() != st[j as int]);
                } else if old_kept.len() > 0 {
                    assert(0 <= idx[0] < j);
                }
                kept = kept.push(st[j as int]);
                assert forall|t: int| 0 <= t < kept.len() - 1 implies kept[t] != #[trigger] kept[t + 1] by {
                    if t < old_kept.len() - 1 {
                        assert(old_kept[t] != old_kept[t + 1]);
                    }
                }
                idx = idx.push(j as int);
                assert(texts(lines@) =~= old_lines.map_values(|s: String| s@).push(line@));
                assert(kept.map_values(|n: Seq<char>| declare_line(n, vm)) =~= old_kept.map_values(
                    |n: Seq<char>| declare_line(n, vm),
                ).push(declare_line(st[j as int], vm)));
            }
        }
        proof {
            assert(st.subrange(0, j + 1) =~= st.subrange(0, j as int).push(st[j as int]));
            lemma_push_to_set(st.subrange(0, j as int), st[j as int]);
            if fresh {
                lemma_push_to_set(old_kept, st[j as int]);
            } else {
                assert(kept.contains(st[j as int])) by {
                    assert(kept[kept.len() - 1] == st[j as int]);
                }
                assert(kept.to_set().insert(st[j as int]) =~= kept.to_set());
            }
        }
        j += 1;
    }
    proof {
        assert(st.subrange(0, j as int) =~= st);
        assert forall|a: int, b: int| 0 <= a < b < kept.len() implies text_order(kept[a], kept[b]) <= 0 by {
            assert(idx[a] < idx[b]);
        }
        assert forall|k: Seq<char>| st.contains(k) <==> name_set(state.exported@).contains(k) by {
            assert(st.to_multiset() == texts(state.exported@).to_multiset());
            vstd::seq_lib::to_multiset_contains(st, k);
            vstd::seq_lib::to_multiset_contains(texts(state.exported@), k);
            if texts(state.exported@).contains(k) {
                let t = choose|t: int| 0 <= t < texts(state.exported@).len() && texts(state.exported@)[t] == k;
                assert(state.exported@[t]@ == k);
            }
            if name_set(state.exported@).contains(k) {
                let t = choose|t: int| 0 <= t < state.exported@.len() && #[trigger] state.exported@[t]@ == k;
                assert(texts(state.exported@)[t] == k);
            }
        }
        assert(kept.to_set() =~= name_set(state.exported@));
        assert(ordered_names(kept, name_set(state.exported@)));
    }
    lines
}

proof fn lemma_push_to_set(s: Seq<Seq<char>>, x: Seq<char>)
    ensures
        s.push(x).to_set() == s.to_set().insert(x),
{
    assert forall|k: Seq<char>| s.push(x).contains(k) <==> s.to_set().insert(x).contains(k) by {
        if s.push(x).contains(k) {
            let t = choose|t: int| 0 <= t < s.push(x).len() && s.push(x)[t] == k;
            if t < s.len() {
                assert(s[t] == k);
            }
        }
        if s.contains(k) {
            let t = choose|t: int| 0 <= t < s.len() && s[t] == k;
            assert(s.push(x)[t] == k);
        }
        if k == x {
            assert(s.push(x)[s.len() as int] == k);
        }
    }
    assert(s.push(x).to_set() =~= s.to_set().insert(x));
}

} // verus!
