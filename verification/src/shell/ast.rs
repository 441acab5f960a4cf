//! The syntax tree of a command line.

use vstd::prelude::*;

verus! {

/// A pipeline of commands, or one command.
#[derive(Debug)]
pub enum AstNode {
    Command(Command),
    Pipeline(Box<AstNode>, Box<AstNode>),
}

/// A word: literal text and expansions written next to each other.
#[derive(Debug)]
pub struct Word {
    pub parts: Vec<WordPart>,
}

impl Word {
    /// The word made of `parts`.
    pub fn new(parts: Vec<WordPart>) -> (res: Self)
        ensures
            res.parts@ == parts@,
    {
        Self { parts }
    }
}

/// A command: its name, its arguments and where its streams go.
#[derive(Debug)]
pub struct Command {
    pub name: Word,
    pub args: Vec<Word>,
    pub redirect: Redirect,
}

/// Where a command's streams go.
#[derive(Debug)]
pub enum Redirect {
    Absent,
    Input(Word),
    Output(Word),
    Append(Word),
    ErrorOutput(Word),
    ErrorAppend(Word),
}

/// One part of a word.
#[derive(Debug)]
pub enum WordPart {
    Literal(String),
    Var(String),
    LastStatus,
}

pub enum SpecWordPart {
    Literal(Seq<char>),
    Var(Seq<char>),
    LastStatus,
}

pub enum SpecRedirect {
    Absent,
    Input(Seq<SpecWordPart>),
    Output(Seq<SpecWordPart>),
    Append(Seq<SpecWordPart>),
    ErrorOutput(Seq<SpecWordPart>),
    ErrorAppend(Seq<SpecWordPart>),
}

pub struct SpecCommand {
    pub name: Seq<SpecWordPart>,
    pub args: Seq<Seq<SpecWordPart>>,
    pub redirect: SpecRedirect,
}

pub enum SpecAst {
    Command(SpecCommand),
    Pipeline(Box<SpecAst>, Box<SpecAst>),
}

impl View for WordPart {
    type V = SpecWordPart;

    open spec fn view(&self) -> SpecWordPart {
        match self {
            WordPart::Literal(s) => SpecWordPart::Literal(s@),
            WordPart::Var(s) => SpecWordPart::Var(s@),
            WordPart::LastStatus => SpecWordPart::LastStatus,
        }
    }
}

impl View for Word {
    type V = Seq<SpecWordPart>;

    open spec fn view(&self) -> Seq<SpecWordPart> {
        self.parts@.map_values(|p: WordPart| p@)
    }
}

impl View for Redirect {
    type V = SpecRedirect;

    open spec fn view(&self) -> SpecRedirect {
        match self {
            Redirect::Absent => SpecRedirect::Absent,
            Redirect::Input(w) => SpecRedirect::Input(w@),
            Redirect::Output(w) => SpecRedirect::Output(w@),
            Redirect::Append(w) => SpecRedirect::Append(w@),
            Redirect::ErrorOutput(w) => SpecRedirect::ErrorOutput(w@),
            Redirect::ErrorAppend(w) => SpecRedirect::ErrorAppend(w@),
        }
    }
}

impl View for Command {
    type V = SpecCommand;

    open spec fn view(&self) -> SpecCommand {
        SpecCommand {
            name: self.name@,
            args: self.args@.map_values(|w: Word| w@),
            redirect: self.redirect@,
        }
    }
}

pub open spec fn ast_view(a: AstNode) -> SpecAst
    decreases a,
{
    match a {
        AstNode::Command(c) => SpecAst::Command(c@),
        AstNode::Pipeline(l, r) => SpecAst::Pipeline(Box::new(ast_view(*l)), Box::new(ast_view(*r))),
    }
}

impl View for AstNode {
    type V = SpecAst;

    open spec fn view(&self) -> SpecAst {
        ast_view(*self)
    }
}

} // verus!
