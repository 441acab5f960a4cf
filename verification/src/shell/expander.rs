//! Word expansion: a parsed command line becomes the commands to run, with
//! variables and the last status replaced by their text.

use vstd::prelude::*;
use vstd::string::StringExecFns;
use crate::shell::ast::{
    ast_view, AstNode, Command, Redirect, SpecAst, SpecCommand, SpecRedirect, SpecWordPart, Word,
    WordPart,
};
use crate::shell::runtime::{ShellState, var_value};
use crate::text::{i64_to_string, int_digits};

verus! {

/// Why a command line could not be expanded.
#[derive(Debug)]
pub enum ExpandError {
    UndefinedVariable(String),
    AmbiguousRedirect,
    EmptyRedirect,
}

impl ExpandError {
    /// The message shown for the error.
    pub fn message(&self) -> (res: String)
        ensures
            res@ == expand_error_message(self),
    {
        match self {
            ExpandError::UndefinedVariable(name) => {
                let mut s = String::from_str("undefined variable: ");
                s.append(name.as_str());
                s
            },
            ExpandError::AmbiguousRedirect => String::from_str("ambiguous redirect"),
            ExpandError::EmptyRedirect => String::from_str("empty redirect target"),
        }
    }
}

pub open spec fn expand_error_message(e: &ExpandError) -> Seq<char> {
    match e {
        ExpandError::UndefinedVariable(name) => "undefined variable: "@ + name@,
        ExpandError::AmbiguousRedirect => "ambiguous redirect"@,
        ExpandError::EmptyRedirect => "empty redirect target"@,
    }
}

/// Where an expanded command's streams go.
#[derive(Debug)]
pub enum ExpandedRedirect {
    Absent,
    Input(String),
    Output(String),
    Append(String),
    ErrorOutput(String),
    ErrorAppend(String),
}

pub enum SpecExpandedRedirect {
    Absent,
    Input(Seq<char>),
    Output(Seq<char>),
    Append(Seq<char>),
    ErrorOutput(Seq<char>),
    ErrorAppend(Seq<char>),
}

impl View for ExpandedRedirect {
    type V = SpecExpandedRedirect;

    open spec fn view(&self) -> SpecExpandedRedirect {
        match self {
            ExpandedRedirect::Absent => SpecExpandedRedirect::Absent,
            ExpandedRedirect::Input(s) => SpecExpandedRedirect::Input(s@),
            ExpandedRedirect::Output(s) => SpecExpandedRedirect::Output(s@),
            ExpandedRedirect::Append(s) => SpecExpandedRedirect::Append(s@),
            ExpandedRedirect::ErrorOutput(s) => SpecExpandedRedirect::ErrorOutput(s@),
            ExpandedRedirect::ErrorAppend(s) => SpecExpandedRedirect::ErrorAppend(s@),
        }
    }
}

/// A command ready to run: its name, arguments and redirection as text.
#[derive(Debug)]
pub struct ExpandedCommand {
    pub name: String,
    pub args: Vec<String>,
    pub redirect: ExpandedRedirect,
}

pub struct SpecExpandedCommand {
    pub name: Seq<char>,
    pub args: Seq<Seq<char>>,
    pub redirect: SpecExpandedRedirect,
}

impl View for ExpandedCommand {
    type V = SpecExpandedCommand;

    open spec fn view(&self) -> SpecExpandedCommand {
        SpecExpandedCommand {
            name: self.name@,
            args: self.args@.map_values(|s: String| s@),
            redirect: self.redirect@,
        }
    }
}

/// The text of one part of a word: literal text as written, a variable's
/// value (empty when unset), the last status in decimal.
pub open spec fn part_text(
    p: SpecWordPart,
    vars: Seq<(String, String)>,
    env: Seq<(String, String)>,
    status: i32,
) -> Seq<char> {
    match p {
        SpecWordPart::Literal(s) => s,
        SpecWordPart::Var(v) => match var_value(vars, env, v) {
            Some(x) => x,
            None => Seq::empty(),
        },
        SpecWordPart::LastStatus => int_digits(status as int),
    }
}

/// The text of a word: the texts of its parts, joined.
pub open spec fn word_text(
    w: Seq<SpecWordPart>,
    vars: Seq<(String, String)>,
    env: Seq<(String, String)>,
    status: i32,
) -> Seq<char>
    decreases w.len(),
{
    if w.len() == 0 {
        Seq::empty()
    } else {
        word_text(w.drop_last(), vars, env, status) + part_text(w.last(), vars, env, status)
    }
}

/// Expands a word against the shell's variables, then the environment.
pub fn expand_word(word: &Word, state: &ShellState, env: &Vec<(String, String)>) -> (res: String)
    ensures
        res@ == word_text(word@, state.vars@, env@, state.last_status),
{
    let mut out = String::new();
    let mut i: usize = 0;
    while i < word.parts.len()
        invariant
            i <= word.parts@.len(),
            out@ == word_text(word@.subrange(0, i as int), state.vars@, env@, state.last_status),
        decreases word.parts.len() - i,
    {
        let ghost w = word@;
        assert(word@.subrange(0, i + 1).drop_last() =~= word@.subrange(0, i as int));
        assert(word@.subrange(0, i + 1).last() == word.parts@[i as int]@);
        match &word.parts[i] {
            WordPart::Literal(s) => {
                out.append(s.as_str());
            },
            WordPart::Var(v) => {
                match state.get_var(v.as_str(), env) {
                    Some(x) => {
                        out.append(x.as_str());
                    },
                    None => {
                        assert(part_text(word.parts@[i as int]@, state.vars@, env@, state.last_status)
                            =~= Seq::<char>::empty());
                    },
                }
            },
            WordPart::LastStatus => {
                let t = i64_to_string(state.last_status as i64);
                out.append(t.as_str());
            },
        }
        i += 1;
    }
    assert(word@.subrange(0, word@.len() as int) =~= word@);
    out
}

/// Picks the target of a redirection among the names its word stands for:
/// exactly one is needed.
pub fn pick_redirect_target(globbed: Vec<String>) -> (res: Result<String, ExpandError>)
    ensures
        globbed@.len() == 0 ==> res matches Err(ExpandError::EmptyRedirect),
        globbed@.len() == 1 ==> (res matches Ok(s) && s@ == globbed@[0]@),
        globbed@.len() > 1 ==> res matches Err(ExpandError::AmbiguousRedirect),
{
    if globbed.len() == 0 {
        Err(ExpandError::EmptyRedirect)
    } else if globbed.len() == 1 {
        Ok(globbed[0].clone())
    } else {
        Err(ExpandError::AmbiguousRedirect)
    }
}

fn expand_redirect_word(word: &Word, state: &ShellState, env: &Vec<(String, String)>) -> (res:
    Result<String, ExpandError>)
    ensures
        res matches Ok(s) && s@ == word_text(word@, state.vars@, env@, state.last_status),
{
    Ok(expand_word(word, state, env))
}

/// The redirection `r` with its target replaced by what its word matched
/// among the file names, exactly one being needed; no redirection stays
/// as it is.
pub open spec fn redirect_globbed(r: SpecExpandedRedirect, globbed: Seq<Seq<char>>) -> Result<
    SpecExpandedRedirect,
    ExpandError,
> {
    if r is Absent {
        Ok(SpecExpandedRedirect::Absent)
    } else if globbed.len() == 0 {
        Err(ExpandError::EmptyRedirect)
    } else if globbed.len() > 1 {
        Err(ExpandError::AmbiguousRedirect)
    } else {
        let t = globbed[0];
        Ok(
            match r {
                SpecExpandedRedirect::Input(_) => SpecExpandedRedirect::Input(t),
                SpecExpandedRedirect::Output(_) => SpecExpandedRedirect::Output(t),
                SpecExpandedRedirect::Append(_) => SpecExpandedRedirect::Append(t),
                SpecExpandedRedirect::ErrorOutput(_) => SpecExpandedRedirect::ErrorOutput(t),
                _ => SpecExpandedRedirect::ErrorAppend(t),
            },
        )
    }
}

/// Settles the target of an expanded redirection from the file names its
/// word matched (`globbed`, which the caller finds on disk): exactly one
/// name is needed, none is `EmptyRedirect`, several `AmbiguousRedirect`.
pub fn glob_redirect(r: ExpandedRedirect, globbed: Vec<String>) -> (res: Result<ExpandedRedirect, ExpandError>)
    ensures
        match redirect_globbed(r@, globbed@.map_values(|s: String| s@)) {
            Ok(v) => res matches Ok(x) && x@ == v,
            Err(e) => res == Err::<ExpandedRedirect, ExpandError>(e),
        },
{
    let ghost gv = globbed@.map_values(|s: String| s@);
    if let ExpandedRedirect::Absent = r {
        return Ok(ExpandedRedirect::Absent);
    }
    let t = match pick_redirect_target(globbed) {
        Ok(t) => t,
        Err(e) => {
            return Err(e);
        },
    };
    proof {
        if gv.len() == 1 {
            assert(t@ == gv[0]);
        }
    }
    match r {
        ExpandedRedirect::Input(_) => Ok(ExpandedRedirect::Input(t)),
        ExpandedRedirect::Output(_) => Ok(ExpandedRedirect::Output(t)),
        ExpandedRedirect::Append(_) => Ok(ExpandedRedirect::Append(t)),
        ExpandedRedirect::ErrorOutput(_) => Ok(ExpandedRedirect::ErrorOutput(t)),
        _ => Ok(ExpandedRedirect::ErrorAppend(t)),
    }
}

/// The expanded form of a redirection.
pub open spec fn redirect_text(
    r: SpecRedirect,
    vars: Seq<(String, String)>,
    env: Seq<(String, String)>,
    status: i32,
) -> SpecExpandedRedirect {
    match r {
        SpecRedirect::Absent => SpecExpandedRedirect::Absent,
        SpecRedirect::Input(w) => SpecExpandedRedirect::Input(word_text(w, vars, env, status)),
        SpecRedirect::Output(w) => SpecExpandedRedirect::Output(word_text(w, vars, env, status)),
        SpecRedirect::Append(w) => SpecExpandedRedirect::Append(word_text(w, vars, env, status)),
        SpecRedirect::ErrorOutput(w) => SpecExpandedRedirect::ErrorOutput(
            word_text(w, vars, env, status),
        ),
        SpecRedirect::ErrorAppend(w) => SpecExpandedRedirect::ErrorAppend(
            word_text(w, vars, env, status),
        ),
    }
}

/// Expands the target word of a redirection. Matching it against the file
/// names on disk, which can leave no target or several, is the caller's
/// next step, settled by `glob_redirect`.
pub fn expand_redirect(redirect: &Redirect, state: &ShellState, env: &Vec<(String, String)>) -> (res:
    Result<ExpandedRedirect, ExpandError>)
    ensures
        res matches Ok(r) && r@ == redirect_text(redirect@, state.vars@, env@, state.last_status),
{
    match redirect {
        Redirect::Absent => Ok(ExpandedRedirect::Absent),
        Redirect::Input(word) => match expand_redirect_word(word, state, env) {
            Ok(s) => Ok(ExpandedRedirect::Input(s)),
            Err(e) => Err(e),
        },
        Redirect::Output(word) => match expand_redirect_word(word, state, env) {
            Ok(s) => Ok(ExpandedRedirect::Output(s)),
            Err(e) => Err(e),
        },
        Redirect::Append(word) => match expand_redirect_word(word, state, env) {
            Ok(s) => Ok(ExpandedRedirect::Append(s)),
            Err(e) => Err(e),
        },
        Redirect::ErrorOutput(word) => match expand_redirect_word(word, state, env) {
            Ok(s) => Ok(ExpandedRedirect::ErrorOutput(s)),
            Err(e) => Err(e),
        },
        Redirect::ErrorAppend(word) => match expand_redirect_word(word, state, env) {
            Ok(s) => Ok(ExpandedRedirect::ErrorAppend(s)),
            Err(e) => Err(e),
        },
    }
}

/// The expanded form of a command.
pub open spec fn command_text(
    c: SpecCommand,
    vars: Seq<(String, String)>,
    env: Seq<(String, String)>,
    status: i32,
) -> SpecExpandedCommand {
    SpecExpandedCommand {
        name: word_text(c.name, vars, env, status),
        args: c.args.map_values(|w: Seq<SpecWordPart>| word_text(w, vars, env, status)),
        redirect: redirect_text(c.redirect, vars, env, status),
    }
}

/// Expands a command's name, arguments and redirection.
pub fn expand_command(cmd: &Command, state: &ShellState, env: &Vec<(String, String)>) -> (res:
    Result<ExpandedCommand, ExpandError>)
    ensures
        res matches Ok(c) && c@ == command_text(cmd@, state.vars@, env@, state.last_status),
{
    let name = expand_word(&cmd.name, state, env);
    let mut args: Vec<String> = Vec::new();
    let mut i: usize = 0;
    while i < cmd.args.len()
        invariant
            i <= cmd.args@.len(),
            args@.map_values(|s: String| s@) == cmd@.args.subrange(0, i as int).map_values(
                |w: Seq<SpecWordPart>| word_text(w, state.vars@, env@, state.last_status),
            ),
        decreases cmd.args.len() - i,
    {
        let a = expand_word(&cmd.args[i], state, env);
        let ghost av = a@;
        let ghost before = args@;
        args.push(a);
        proof {
            assert(args@ == before.push(args@.last()));
            assert(before.push(args@.last()).map_values(|s: String| s@) =~= before.map_values(
                |s: String| s@,
            ).push(av));
            assert(cmd@.args[i as int] == cmd.args@[i as int]@);
            assert(cmd@.args.subrange(0, i + 1).map_values(
                |w: Seq<SpecWordPart>| word_text(w, state.vars@, env@, state.last_status),
            ) =~= cmd@.args.subrange(0, i as int).map_values(
                |w: Seq<SpecWordPart>| word_text(w, state.vars@, env@, state.last_status),
            ).push(av));
        }
        i += 1;
    }
    proof {
        assert(cmd@.args.subrange(0, cmd@.args.len() as int) =~= cmd@.args);
    }
    let redirect = match expand_redirect(&cmd.redirect, state, env) {
        Ok(r) => r,
        Err(e) => {
            return Err(e);
        },
    };
    Ok(ExpandedCommand { name, args, redirect })
}

/// The commands of a pipeline, from left to right.
pub open spec fn commands_of(a: SpecAst) -> Seq<SpecCommand>
    decreases a,
{
    match a {
        SpecAst::Command(c) => seq![c],
        SpecAst::Pipeline(l, r) => commands_of(*l) + commands_of(*r),
    }
}

pub open spec fn expanded_view(v: Seq<ExpandedCommand>) -> Seq<SpecExpandedCommand> {
    v.map_values(|c: ExpandedCommand| c@)
}

/// Expands every command of a pipeline, in order.
pub fn expand_pipeline(node: AstNode, state: &ShellState, env: &Vec<(String, String)>) -> (res:
    Result<Vec<ExpandedCommand>, ExpandError>)
    ensures
        res matches Ok(v) && expanded_view(v@) == commands_of(node@).map_values(
            |c: SpecCommand| command_text(c, state.vars@, env@, state.last_status),
        ),
{
    let mut out: Vec<ExpandedCommand> = Vec::new();
    proof {
        assert(expanded_view(out@) =~= Seq::<SpecExpandedCommand>::empty());
    }
    match flatten(node, state, env, &mut out) {
        Ok(()) => {},
        Err(e) => {
            return Err(e);
        },
    }
    proof {
        assert(Seq::<SpecExpandedCommand>::empty() + commands_of(node@).map_values(
            |c: SpecCommand| command_text(c, state.vars@, env@, state.last_status),
        ) =~= commands_of(node@).map_values(
            |c: SpecCommand| command_text(c, state.vars@, env@, state.last_status),
        ));
    }
    Ok(out)
}

fn flatten(node: AstNode, state: &ShellState, env: &Vec<(String, String)>, out: &mut Vec<ExpandedCommand>) -> (res:
    Result<(), ExpandError>)
    ensures
        res is Ok,
        expanded_view(final(out)@) == expanded_view(old(out)@) + commands_of(node@).map_values(
            |c: SpecCommand| command_text(c, state.vars@, env@, state.last_status),
        ),
    decreases node,
{
    match node {
        AstNode::Command(cmd) => {
            let ghost before = out@;
            match expand_command(&cmd, state, env) {
                Ok(c) => {
                    out.push(c);
                },
                Err(e) => {
                    return Err(e);
                },
            }
            proof {
                assert(commands_of(ast_view(AstNode::Command(cmd))) == seq![cmd@]);
                assert(expanded_view(out@) =~= expanded_view(before) + seq![cmd@].map_values(
                    |c: SpecCommand| command_text(c, state.vars@, env@, state.last_status),
                )) by {
                    assert forall|j: int| 0 <= j < before.len() implies out@[j]@ == before[j]@ by {
                        assert(out@[j] == before[j]);
                    }
                }
            }
        },
        AstNode::Pipeline(left, right) => {
            let ghost lv = ast_view(*left);
            let ghost rv = ast_view(*right);
            let ghost before = out@;
            match flatten(*left, state, env, out) {
                Ok(()) => {},
                Err(e) => {
                    return Err(e);
                },
            }
            match flatten(*right, state, env, out) {
                Ok(()) => {},
                Err(e) => {
                    return Err(e);
                },
            }
            proof {
                let f = |c: SpecCommand| command_text(c, state.vars@, env@, state.last_status);
                assert((commands_of(lv) + commands_of(rv)).map_values(f) =~= commands_of(lv).map_values(f)
                    + commands_of(rv).map_values(f));
            }
        },
    }
    Ok(())
}

} // verus!
