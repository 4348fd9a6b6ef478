//! The syntax tree that the parser builds and the executor walks.
use vstd::prelude::*;

verus! {

/// Which stream a redirection sends to a file, and whether it appends.
#[derive(Debug, PartialEq, Eq, Structural, Clone, Copy)]
pub enum RedirectStream {
    Stdout,
    StdoutAppend,
    Stderr,
    StderrAppend,
}

/// A parsed command line.
#[derive(Debug, PartialEq, Eq)]
pub enum ASTNode {
    Command { name: String, args: Vec<String> },
    Pipe { left: Box<ASTNode>, right: Box<ASTNode> },
    Redirect { command: Box<ASTNode>, file: String, stream: RedirectStream },
    Background { command: Box<ASTNode> },
}

/// The mathematical value of an [`ASTNode`].
pub enum SpecAst {
    Command { name: Seq<char>, args: Seq<Seq<char>> },
    Pipe { left: Box<SpecAst>, right: Box<SpecAst> },
    Redirect { command: Box<SpecAst>, file: Seq<char>, stream: RedirectStream },
    Background { command: Box<SpecAst> },
}

/// The character sequences of a list of strings.
pub open spec fn strings_view(v: Seq<String>) -> Seq<Seq<char>> {
    v.map_values(|s: String| s@)
}

/// The value of a node, computed over the whole tree.
pub open spec fn ast_view(n: ASTNode) -> SpecAst
    decreases n,
{
    match n {
        ASTNode::Command { name, args } => SpecAst::Command { name: name@, args: strings_view(args@) },
        ASTNode::Pipe { left, right } => SpecAst::Pipe {
            left: Box::new(ast_view(*left)),
            right: Box::new(ast_view(*right)),
        },
        ASTNode::Redirect { command, file, stream } => SpecAst::Redirect {
            command: Box::new(ast_view(*command)),
            file: file@,
            stream,
        },
        ASTNode::Background { command } => SpecAst::Background { command: Box::new(ast_view(*command)) },
    }
}

impl View for ASTNode {
    type V = SpecAst;

    open spec fn view(&self) -> SpecAst {
        ast_view(*self)
    }
}

/// A copy of a list of strings.
pub fn copy_strings(v: &Vec<String>) -> (r: Vec<String>)
    ensures
        strings_view(r@) == strings_view(v@),
{
    let mut r: Vec<String> = Vec::new();
    let mut i: usize = 0;
    while i < v.len()
        invariant
            i <= v.len(),
            r.len() == i,
            forall|j: int| 0 <= j < i ==> #[trigger] r@[j]@ == v@[j]@,
        decreases v.len() - i,
    {
        let s = v[i].clone();
        r.push(s);
        i = i + 1;
    }
    assert(strings_view(r@) =~= strings_view(v@));
    r
}

impl ASTNode {
    /// An owned copy of this tree.
    pub fn duplicate(&self) -> (r: ASTNode)
        ensures
            r@ == self@,
        decreases self,
    {
        match self {
            ASTNode::Command { name, args } => ASTNode::Command { name: name.clone(), args: copy_strings(args) },
            ASTNode::Pipe { left, right } => ASTNode::Pipe {
                left: Box::new(left.duplicate()),
                right: Box::new(right.duplicate()),
            },
            ASTNode::Redirect { command, file, stream } => ASTNode::Redirect {
                command: Box::new(command.duplicate()),
                file: file.clone(),
                stream: *stream,
            },
            ASTNode::Background { command } => ASTNode::Background { command: Box::new(command.duplicate()) },
        }
    }
}

} // verus!
