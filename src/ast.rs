//! The document tree produced by the parser.
use vstd::prelude::*;

verus! {

broadcast use vstd::std_specs::vec::group_vec_axioms, vstd::seq::group_seq_axioms;

/// A parsed command invocation.
#[derive(Debug, PartialEq, Eq)]
pub struct Command {
    /// The backend this command is meant for; `None` means every backend.
    pub backend: Option<String>,
    pub cmd: String,
    /// Attribute pairs in the order they were written.
    pub attributes: Vec<(String, String)>,
    pub arguments: Vec<ASTNode>,
}

/// A node of a document: literal text or a command call.
#[derive(Debug, PartialEq, Eq)]
pub enum ASTNode {
    Text(String),
    CommandCall(Command),
}

/// A parsed document: its metadata pairs (a later pair overrides an earlier one with the
/// same key) and its nodes.
#[derive(Debug, PartialEq, Eq)]
pub struct AST {
    pub metadata: Vec<(String, String)>,
    pub nodes: Vec<ASTNode>,
}

/// The mathematical value of a node.
pub enum NodeModel {
    Text(Seq<char>),
    Call(CommandModel),
}

/// The mathematical value of a command.
pub struct CommandModel {
    pub backend: Option<Seq<char>>,
    pub name: Seq<char>,
    pub attributes: Seq<(Seq<char>, Seq<char>)>,
    pub arguments: Seq<NodeModel>,
}

pub open spec fn opt_view(o: Option<String>) -> Option<Seq<char>> {
    match o {
        Some(s) => Some(s@),
        None => None,
    }
}

pub open spec fn pairs_view(v: Seq<(String, String)>) -> Seq<(Seq<char>, Seq<char>)> {
    v.map_values(|p: (String, String)| (p.0@, p.1@))
}

pub open spec fn command_model(c: Command) -> CommandModel
    decreases c,
{
    CommandModel {
        backend: opt_view(c.backend),
        name: c.cmd@,
        attributes: pairs_view(c.attributes@),
        arguments: nodes_model(c.arguments@),
    }
}

pub open spec fn node_model(n: ASTNode) -> NodeModel
    decreases n,
{
    match n {
        ASTNode::Text(s) => NodeModel::Text(s@),
        ASTNode::CommandCall(c) => NodeModel::Call(command_model(c)),
    }
}

pub open spec fn nodes_model(s: Seq<ASTNode>) -> Seq<NodeModel>
    decreases s,
{
    if s.len() == 0 {
        seq![]
    } else {
        nodes_model(s.drop_last()).push(node_model(s.last()))
    }
}

pub proof fn lemma_nodes_model_push(s: Seq<ASTNode>, n: ASTNode)
    ensures
        nodes_model(s.push(n)) == nodes_model(s).push(node_model(n)),
{
    assert(s.push(n).drop_last() =~= s);
}

} // verus!
