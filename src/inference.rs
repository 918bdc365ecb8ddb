use vstd::prelude::*;
use crate::command::Command;

verus! {

/// The mathematical value of one inference node and the subtree below it.
pub struct Node {
    pub cmd: Command,
    pub body: Seq<char>,
    pub labels: Seq<Seq<char>>,
    pub children: Seq<Node>,
}

/// One proof step: its command, a free-form body, the labels it cites, and
/// the sub-steps it owns, in source order.
#[derive(Debug)]
pub struct Inference {
    cmd: Command,
    body: String,
    infers: Vec<Inference>,
    labels: Vec<String>,
}

/// The character sequences that a sequence of strings holds.
pub open spec fn string_views(v: Seq<String>) -> Seq<Seq<char>> {
    v.map_values(|s: String| s@)
}

/// The value of a node and its subtree.
pub closed spec fn model(n: &Inference) -> Node
    decreases n,
{
    Node {
        cmd: n.cmd,
        body: n.body@,
        labels: string_views(n.labels@),
        children: Seq::new(
            n.infers@.len(),
            |i: int|
                if 0 <= i < n.infers@.len() {
                    model(&n.infers@[i])
                } else {
                    arbitrary()
                },
        ),
    }
}

impl View for Inference {
    type V = Node;

    closed spec fn view(&self) -> Node {
        model(self)
    }
}

impl Inference {
    /// The command of this step.
    pub fn cmd(&self) -> (r: Command)
        ensures
            r == self@.cmd,
    {
        self.cmd
    }

    /// A node with the given command and body, no labels and no sub-steps.
    pub fn new(cmd: Command, body: String) -> (r: Inference)
        ensures
            r@ == (Node { cmd, body: body@, labels: seq![], children: seq![] }),
    {
        let r = Inference { cmd, body, infers: Vec::new(), labels: Vec::new() };
        assert(r@.labels =~= seq![]);
        assert(r@.children =~= seq![]);
        r
    }

    /// Appends a cited label.
    pub fn add_label(&mut self, label: String)
        ensures
            final(self)@ == (Node { labels: old(self)@.labels.push(label@), ..old(self)@ }),
    {
        self.labels.push(label);
        assert(self@.labels =~= old(self)@.labels.push(label@));
        assert(self@.children =~= old(self)@.children);
    }

    /// Appends a sub-step after those already attached.
    pub fn add_infer(&mut self, infer: Inference)
        ensures
            final(self)@ == (Node { children: old(self)@.children.push(infer@), ..old(self)@ }),
    {
        let ghost v = infer@;
        self.infers.push(infer);
        assert(self@.labels =~= old(self)@.labels);
        assert(self@.children =~= old(self)@.children.push(v));
    }

    /// The free-form body of this step.
    pub fn body(&self) -> (r: &String)
        ensures
            r@ == self@.body,
    {
        &self.body
    }

    /// The labels this step cites, in order.
    pub fn labels(&self) -> (r: &Vec<String>)
        ensures
            string_views(r@) == self@.labels,
    {
        &self.labels
    }

    /// The sub-steps of this step, in order.
    pub fn infers(&self) -> (r: &Vec<Inference>)
        ensures
            r@.len() == self@.children.len(),
            forall|i: int| 0 <= i < r@.len() ==> (#[trigger] r@[i])@ == self@.children[i],
    {
        &self.infers
    }
}

} // verus!