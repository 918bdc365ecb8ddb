use vstd::prelude::*;
use crate::command::{Command, command_of};
use crate::inference::Node;
use crate::text::{split, split_from, starts_with};
use crate::parser::{
    cites_label, ends_keyword, goal_of, squeezed, theorem_from, keyword, keyword_end_from, unterminated, header, line_command, marker_from, params, parse_result, step_tree, steps, tokenize, lines_left,
    ParseError,
};

verus! {

/// Every node has exactly as many children as its command requires, and so
/// has every node below it.
pub open spec fn well_formed(n: Node) -> bool
    decreases n, 1nat,
{
    n.children.len() == n.cmd.child_arity() && all_well_formed(n.children)
}

/// Every tree of a sequence is well formed.
pub open spec fn all_well_formed(ns: Seq<Node>) -> bool
    decreases ns, 0nat,
{
    ns.len() > 0 ==> well_formed(ns[0]) && all_well_formed(ns.subrange(1, ns.len() as int))
}

/// A node without its children.
pub open spec fn bare(n: Node) -> Node {
    Node { children: seq![], ..n }
}

/// The nodes of a tree in pre-order (each before its children, children in
/// order), without their children.
pub open spec fn preorder(n: Node) -> Seq<Node>
    decreases n, 1nat,
{
    seq![bare(n)] + preorder_all(n.children)
}

/// The nodes of a sequence of trees in pre-order, tree after tree.
pub open spec fn preorder_all(ns: Seq<Node>) -> Seq<Node>
    decreases ns, 0nat,
{
    if ns.len() == 0 {
        seq![]
    } else {
        preorder(ns[0]) + preorder_all(ns.subrange(1, ns.len() as int))
    }
}

/// Whether the `k` lines after index `c` form a well-formed script for `n`
/// pending steps: each line carries the parameters its command requires,
/// and counting the steps each line fills and the sub-steps it asks for,
/// the pending count stays positive until it reaches zero with the `k`-th.
pub open spec fn completes(lines: Seq<Seq<char>>, c: int, n: nat, k: nat) -> bool
    decreases k,
{
    if k == 0 {
        n == 0
    } else {
        &&& n > 0
        &&& 0 <= c + 1 < lines.len()
        &&& tokenize(lines[c + 1]) is Ok
        &&& completes(lines, c + 1, (n - 1 + line_command(lines[c + 1]).child_arity()) as nat, (k - 1) as nat)
    }
}

/// A line whose command fixes its parameter count yields a node only when it
/// carries exactly that many parameter tokens; otherwise it is refused.
pub proof fn lemma_tokenize_param_count(l: Seq<char>)
    ensures
        line_command(l).param_arity() matches Some(n) ==> {
            &&& tokenize(l) is Ok ==> params(l).len() == n
            &&& params(l).len() != n ==> tokenize(l) == Err::<Node, ParseError>(ParseError::ParameterCountMismatch)
        },
{
}

proof fn lemma_tree_shape(lines: Seq<Seq<char>>, c: int)
    ensures
        step_tree(lines, c) matches Ok((t, k)) ==> {
            &&& well_formed(t)
            &&& preorder(t).len() == k
            &&& forall|j: int| 0 <= j < k ==> tokenize(#[trigger] lines[c + 1 + j]) == Ok::<Node, ParseError>(preorder(t)[j])
        },
    decreases lines_left(lines, c), 0nat, 0nat,
{
    if step_tree(lines, c) is Ok {
        let n0 = tokenize(lines[c + 1])->Ok_0;
        let a = n0.cmd.child_arity();
        lemma_steps_shape(lines, c + 1, a);
        let (ch, k) = steps(lines, c + 1, a)->Ok_0;
        let t = Node { children: ch, ..n0 };
        assert(bare(t) == n0);
        assert(preorder(t) == seq![n0] + preorder_all(ch));
        assert forall|j: int| 0 <= j < k + 1 implies tokenize(#[trigger] lines[c + 1 + j]) == Ok::<Node, ParseError>(preorder(t)[j]) by {
            if j > 0 {
                assert(lines[c + 1 + j] == lines[c + 1 + 1 + (j - 1)]);
            }
        }
    }
}

proof fn lemma_steps_shape(lines: Seq<Seq<char>>, c: int, n: nat)
    ensures
        steps(lines, c, n) matches Ok((ns, k)) ==> {
            &&& ns.len() == n
            &&& all_well_formed(ns)
            &&& preorder_all(ns).len() == k
            &&& forall|j: int| 0 <= j < k ==> tokenize(#[trigger] lines[c + 1 + j]) == Ok::<Node, ParseError>(preorder_all(ns)[j])
        },
    decreases lines_left(lines, c), 1nat, n,
{
    if n > 0 && steps(lines, c, n) is Ok {
        lemma_tree_shape(lines, c);
        let (t, k1) = step_tree(lines, c)->Ok_0;
        lemma_steps_shape(lines, c + k1, (n - 1) as nat);
        let (ts, k2) = steps(lines, c + k1, (n - 1) as nat)->Ok_0;
        let ns = seq![t] + ts;
        assert(ns[0] == t);
        assert(ns.subrange(1, ns.len() as int) =~= ts);
        assert(preorder_all(ns) == preorder(t) + preorder_all(ts));
        assert forall|j: int| 0 <= j < k1 + k2 implies tokenize(#[trigger] lines[c + 1 + j]) == Ok::<Node, ParseError>(preorder_all(ns)[j]) by {
            if j >= k1 {
                assert(lines[c + 1 + j] == lines[c + k1 + 1 + (j - k1)]);
            }
        }
    }
}

/// Filling `n` steps, when it succeeds, attaches exactly `n` subtrees, and
/// every node in them has as many children as its command requires.
pub proof fn lemma_fill_arity(lines: Seq<Seq<char>>, c: int, n: nat)
    ensures
        steps(lines, c, n) matches Ok((ns, k)) ==> {
            &&& ns.len() == n
            &&& all_well_formed(ns)
        },
{
    lemma_steps_shape(lines, c, n);
}

/// The tree is built depth-first: the lines read, in order, are the nodes
/// of the attached subtrees in pre-order, so a node's sub-steps come before
/// its next sibling, and as many lines are read as nodes are attached.
pub proof fn lemma_fill_preorder(lines: Seq<Seq<char>>, c: int, n: nat)
    ensures
        steps(lines, c, n) matches Ok((ns, k)) ==> {
            &&& preorder_all(ns).len() == k
            &&& forall|j: int| 0 <= j < k ==> tokenize(#[trigger] lines[c + 1 + j]) == Ok::<Node, ParseError>(preorder_all(ns)[j])
        },
{
    lemma_steps_shape(lines, c, n);
}

proof fn lemma_steps_complete(lines: Seq<Seq<char>>, c: int, n: nat, m: nat, k: nat)
    requires
        completes(lines, c, n + m, k),
    ensures
        steps(lines, c, n) matches Ok((ns, k1)) && k1 <= k && completes(lines, c + k1, m, (k - k1) as nat),
    decreases k, n,
{
    if n > 0 {
        let n0 = tokenize(lines[c + 1])->Ok_0;
        let a = n0.cmd.child_arity();
        assert(n0.cmd == line_command(lines[c + 1]));
        assert((n + m - 1 + a) as nat == a + (n - 1 + m) as nat);
        lemma_steps_complete(lines, c + 1, a, (n - 1 + m) as nat, (k - 1) as nat);
        let (ch, k1) = steps(lines, c + 1, a)->Ok_0;
        assert(step_tree(lines, c) == Ok::<(Node, nat), ParseError>((Node { children: ch, ..n0 }, k1 + 1)));
        assert(c + 1 + k1 == c + (k1 + 1));
        lemma_steps_complete(lines, c + (k1 + 1), (n - 1) as nat, m, (k - 1 - k1) as nat);
    }
}

/// A well-formed script parses: with a theorem line and `k` step lines after
/// the proof marker that together complete one step, parsing succeeds, and
/// the root's subtree holds exactly one node per step line read.
pub proof fn lemma_well_formed_script_parses(lines: Seq<Seq<char>>, c: int, k: nat)
    requires
        header(lines) is Ok,
        completes(lines, marker_from(lines, c + 1), 1, k),
    ensures
        parse_result(lines, c) matches Ok(root) && {
            &&& root.cmd == Command::Theorem
            &&& root.children.len() == 1
            &&& preorder_all(root.children).len() == k
        },
{
    let j = marker_from(lines, c + 1);
    lemma_steps_complete(lines, j, 1, 0, k);
    lemma_steps_shape(lines, j, 1);
    let (ns, k1) = steps(lines, j, 1)->Ok_0;
    if k1 < k {
        assert(completes(lines, j + k1, 0, (k - k1) as nat));
        assert(false);
    }
}

/// Parameter tokens written after a keyword, each preceded by one space.
pub open spec fn spaced(ps: Seq<Seq<char>>) -> Seq<char>
    decreases ps.len(),
{
    if ps.len() == 0 {
        seq![]
    } else {
        seq![' '] + ps[0] + spaced(ps.subrange(1, ps.len() as int))
    }
}

/// A step line written from a keyword and parameter tokens.
pub open spec fn step_line(kw: Seq<char>, ps: Seq<Seq<char>>) -> Seq<char> {
    kw + spaced(ps) + seq!['.']
}

proof fn lemma_split_run(s: Seq<char>, sep: char, st: int, i: int, e: int)
    requires
        0 <= st <= i <= e <= s.len(),
        forall|j: int| i <= j < e ==> s[j] != sep,
    ensures
        split_from(s, sep, st, i) == split_from(s, sep, st, e),
    decreases e - i,
{
    if i < e {
        lemma_split_run(s, sep, st, i + 1, e);
    }
}

proof fn lemma_split_shift(pre: Seq<char>, b: Seq<char>, sep: char, st: int, i: int)
    requires
        0 <= st <= i <= b.len(),
    ensures
        split_from(pre + b, sep, pre.len() + st, pre.len() + i) == split_from(b, sep, st, i),
    decreases b.len() - i,
{
    let s = pre + b;
    let o = pre.len() as int;
    if i >= b.len() {
        assert(s.subrange(o + st, s.len() as int) =~= b.subrange(st, b.len() as int));
    } else {
        assert(s[o + i] == b[i]);
        if b[i] == sep {
            lemma_split_shift(pre, b, sep, i + 1, i + 1);
            assert(s.subrange(o + st, o + i) =~= b.subrange(st, i));
        } else {
            lemma_split_shift(pre, b, sep, st, i + 1);
        }
    }
}

proof fn lemma_split_spaced(w: Seq<char>, ps: Seq<Seq<char>>)
    requires
        !w.contains(' '),
        forall|i: int| 0 <= i < ps.len() ==> !(#[trigger] ps[i]).contains(' '),
    ensures
        split(w + spaced(ps), ' ') == seq![w] + ps,
    decreases ps.len(),
{
    let s = w + spaced(ps);
    let n = w.len() as int;
    assert forall|j: int| 0 <= j < n implies s[j] != ' ' by {
        assert(s[j] == w[j]);
        if s[j] == ' ' {
            assert(w.contains(' '));
        }
    }
    lemma_split_run(s, ' ', 0, 0, n);
    if ps.len() == 0 {
        assert(s =~= w);
        assert(s.subrange(0, n) =~= w);
        assert(seq![w] + ps =~= seq![w]);
    } else {
        let tail = ps.subrange(1, ps.len() as int);
        let rest = ps[0] + spaced(tail);
        let pre = w + seq![' '];
        assert(s =~= pre + rest);
        assert(s[n] == ' ');
        assert(s.subrange(0, n) =~= w);
        assert(split_from(s, ' ', 0, n) == seq![w] + split_from(s, ' ', n + 1, n + 1));
        lemma_split_shift(pre, rest, ' ', 0, 0);
        assert forall|i: int| 0 <= i < tail.len() implies !(#[trigger] tail[i]).contains(' ') by {
            assert(tail[i] == ps[i + 1]);
        }
        lemma_split_spaced(ps[0], tail);
        assert(seq![w] + (seq![ps[0]] + tail) =~= seq![w] + ps);
    }
}

proof fn lemma_keyword_end(l: Seq<char>, kw: Seq<char>, i: int)
    requires
        0 <= i <= kw.len() < l.len(),
        l.subrange(0, kw.len() as int) == kw,
        forall|j: int| 0 <= j < kw.len() ==> !ends_keyword(#[trigger] kw[j]),
        ends_keyword(l[kw.len() as int]),
    ensures
        keyword_end_from(l, i) == kw.len(),
    decreases kw.len() - i,
{
    if i < kw.len() {
        assert(l[i] == l.subrange(0, kw.len() as int)[i]);
        lemma_keyword_end(l, kw, i + 1);
    }
}

/// A line written as a keyword (free of spaces and periods) followed by
/// space-free parameter tokens, each after one space, and a final period,
/// names the keyword's command and carries exactly those tokens; so it is
/// accepted exactly when its command checks no count or the count is right,
/// and a citing step records its first token as its label.
pub proof fn lemma_step_line_tokens(kw: Seq<char>, ps: Seq<Seq<char>>)
    requires
        forall|j: int| 0 <= j < kw.len() ==> !ends_keyword(#[trigger] kw[j]),
        forall|i: int| 0 <= i < ps.len() ==> !(#[trigger] ps[i]).contains(' '),
    ensures
        keyword(step_line(kw, ps)) == kw,
        params(step_line(kw, ps)) == ps,
        tokenize(step_line(kw, ps)) is Ok <==> (line_command(step_line(kw, ps)).param_arity() matches Some(
            n,
        ) ==> ps.len() == n),
        tokenize(step_line(kw, ps)) matches Ok(node) ==> {
            &&& node.cmd == line_command(step_line(kw, ps))
            &&& node.children.len() == 0
            &&& cites_label(node.cmd) ==> node.labels == seq![ps[0]]
        },
{
    let l = step_line(kw, ps);
    let body = kw + spaced(ps);
    assert(unterminated(l) =~= body);
    assert(!kw.contains(' ')) by {
        if kw.contains(' ') {
            let j = choose|j: int| 0 <= j < kw.len() && kw[j] == ' ';
            assert(!ends_keyword(kw[j]));
        }
    }
    lemma_split_spaced(kw, ps);
    assert((seq![kw] + ps).drop_first() =~= ps);
    if ps.len() == 0 {
        assert(l =~= kw + seq!['.']);
    } else {
        assert(l =~= kw + (seq![' '] + ps[0] + spaced(ps.subrange(1, ps.len() as int)) + seq!['.']));
    }
    assert(l.subrange(0, kw.len() as int) =~= kw);
    lemma_keyword_end(l, kw, 0);
}

proof fn lemma_theorem_from(lines: Seq<Seq<char>>, from: int, i: int)
    requires
        0 <= from <= i < lines.len(),
        starts_with(lines[i], "Theorem"@),
        forall|j: int| from <= j < i ==> !starts_with(#[trigger] lines[j], "Theorem"@),
    ensures
        theorem_from(lines, from) == Some(i),
    decreases i - from,
{
    if from < i {
        lemma_theorem_from(lines, from + 1, i);
    }
}

/// The goal is taken from the first line that begins with the theorem
/// keyword: with periods and spaces removed, it is the text after the last
/// colon when the line holds a colon, and the header is malformed otherwise.
pub proof fn lemma_header_goal(lines: Seq<Seq<char>>, i: int)
    requires
        0 <= i < lines.len(),
        starts_with(lines[i], "Theorem"@),
        forall|j: int| 0 <= j < i ==> !starts_with(#[trigger] lines[j], "Theorem"@),
    ensures
        header(lines) == goal_of(lines[i]),
        squeezed(lines[i]).contains(':') ==> header(lines) == Ok::<Seq<char>, ParseError>(
            split(squeezed(lines[i]), ':').last(),
        ),
        !squeezed(lines[i]).contains(':') ==> header(lines) == Err::<Seq<char>, ParseError>(
            ParseError::MalformedHeader,
        ),
{
    lemma_theorem_from(lines, 0, i);
}

/// A proof written as a tree of steps: each step's keyword, its parameter
/// tokens, and its sub-steps.
pub struct StepTree {
    pub kw: Seq<char>,
    pub ps: Seq<Seq<char>>,
    pub children: Seq<StepTree>,
}

/// The lines of a step tree: each step's line, followed by those of its
/// sub-steps in order.
pub open spec fn script_of(t: StepTree) -> Seq<Seq<char>>
    decreases t, 1nat,
{
    seq![step_line(t.kw, t.ps)] + script_all(t.children)
}

/// The lines of a sequence of step trees, tree after tree.
pub open spec fn script_all(ts: Seq<StepTree>) -> Seq<Seq<char>>
    decreases ts, 0nat,
{
    if ts.len() == 0 {
        seq![]
    } else {
        script_of(ts[0]) + script_all(ts.subrange(1, ts.len() as int))
    }
}

/// A step tree respects the command table: keywords hold no space or period,
/// tokens hold no space, each step has the parameter count its command
/// checks and as many sub-steps as its command requires.
pub open spec fn valid_tree(t: StepTree) -> bool
    decreases t, 1nat,
{
    &&& forall|j: int| 0 <= j < t.kw.len() ==> !ends_keyword(#[trigger] t.kw[j])
    &&& forall|i: int| 0 <= i < t.ps.len() ==> !(#[trigger] t.ps[i]).contains(' ')
    &&& command_of(t.kw).param_arity() matches Some(n) ==> t.ps.len() == n
    &&& t.children.len() == command_of(t.kw).child_arity()
    &&& valid_all(t.children)
}

/// Every tree of a sequence respects the command table.
pub open spec fn valid_all(ts: Seq<StepTree>) -> bool
    decreases ts, 0nat,
{
    ts.len() > 0 ==> valid_tree(ts[0]) && valid_all(ts.subrange(1, ts.len() as int))
}

proof fn lemma_completes_concat(lines: Seq<Seq<char>>, c: int, n: nat, k1: nat, m: nat, k2: nat)
    requires
        completes(lines, c, n, k1),
        completes(lines, c + k1, m, k2),
    ensures
        completes(lines, c, n + m, k1 + k2),
    decreases k1,
{
    if k1 > 0 {
        let a = line_command(lines[c + 1]).child_arity();
        assert(c + 1 + (k1 - 1) == c + k1);
        lemma_completes_concat(lines, c + 1, (n - 1 + a) as nat, (k1 - 1) as nat, m, k2);
        assert((n - 1 + a) as nat + m == (n + m - 1 + a) as nat);
        assert((k1 - 1) as nat + k2 == (k1 + k2 - 1) as nat);
    }
}

proof fn lemma_tree_completes(lines: Seq<Seq<char>>, c: int, t: StepTree)
    requires
        valid_tree(t),
        0 <= c + 1,
        c + 1 + script_of(t).len() <= lines.len(),
        lines.subrange(c + 1, c + 1 + script_of(t).len()) == script_of(t),
    ensures
        completes(lines, c, 1, script_of(t).len()),
    decreases t, 1nat,
{
    let sc = script_of(t);
    let sa = script_all(t.children);
    assert(lines[c + 1] == lines.subrange(c + 1, c + 1 + sc.len())[0]);
    lemma_step_line_tokens(t.kw, t.ps);
    assert(lines.subrange(c + 2, c + 2 + sa.len()) =~= lines.subrange(c + 1, c + 1 + sc.len()).subrange(1, sc.len() as int));
    assert(sc.subrange(1, sc.len() as int) =~= sa);
    lemma_all_completes(lines, c + 1, t.children);
    assert(sc.len() == 1 + sa.len());
}

proof fn lemma_all_completes(lines: Seq<Seq<char>>, c: int, ts: Seq<StepTree>)
    requires
        valid_all(ts),
        0 <= c + 1,
        c + 1 + script_all(ts).len() <= lines.len(),
        lines.subrange(c + 1, c + 1 + script_all(ts).len()) == script_all(ts),
    ensures
        completes(lines, c, ts.len(), script_all(ts).len()),
    decreases ts, 0nat,
{
    if ts.len() > 0 {
        let tail = ts.subrange(1, ts.len() as int);
        let s0 = script_of(ts[0]);
        let st = script_all(tail);
        let sa = script_all(ts);
        assert(sa == s0 + st);
        assert(lines.subrange(c + 1, c + 1 + s0.len()) =~= sa.subrange(0, s0.len() as int));
        assert(sa.subrange(0, s0.len() as int) =~= s0);
        lemma_tree_completes(lines, c, ts[0]);
        assert(lines.subrange(c + s0.len() + 1, c + s0.len() + 1 + st.len()) =~= sa.subrange(
            s0.len() as int,
            sa.len() as int,
        ));
        assert(sa.subrange(s0.len() as int, sa.len() as int) =~= st);
        lemma_all_completes(lines, c + s0.len(), tail);
        lemma_completes_concat(lines, c, 1, s0.len(), tail.len(), st.len());
    }
}

proof fn lemma_marker_from_ge(lines: Seq<Seq<char>>, k: int)
    ensures
        marker_from(lines, k) >= k,
    decreases lines.len() - k,
{
    if k < lines.len() && !starts_with(lines[k], "Proof"@) {
        lemma_marker_from_ge(lines, k + 1);
    }
}

/// A script whose lines after the proof marker begin with the lines of a step
/// tree that respects the command table parses, and the root's subtree holds
/// one node per line of that tree, the first naming the tree's top command.
pub proof fn lemma_step_tree_script_parses(lines: Seq<Seq<char>>, c: int, t: StepTree)
    requires
        0 <= c,
        header(lines) is Ok,
        valid_tree(t),
        marker_from(lines, c + 1) + 1 + script_of(t).len() <= lines.len(),
        lines.subrange(
            marker_from(lines, c + 1) + 1,
            marker_from(lines, c + 1) + 1 + script_of(t).len(),
        ) == script_of(t),
    ensures
        parse_result(lines, c) matches Ok(root) && {
            &&& root.children.len() == 1
            &&& root.children[0].cmd == command_of(t.kw)
            &&& preorder_all(root.children).len() == script_of(t).len()
        },
{
    let j = marker_from(lines, c + 1);
    lemma_marker_from_ge(lines, c + 1);
    lemma_tree_completes(lines, j, t);
    lemma_well_formed_script_parses(lines, c, script_of(t).len());
    lemma_fill_preorder(lines, j, 1);
    let (ns, k) = steps(lines, j, 1)->Ok_0;
    assert(lines[j + 1] == lines.subrange(j + 1, j + 1 + script_of(t).len())[0]);
    lemma_step_line_tokens(t.kw, t.ps);
    assert(preorder_all(ns) == preorder(ns[0]) + preorder_all(ns.subrange(1, 1)));
    assert(tokenize(lines[j + 1 + 0]) == Ok::<Node, ParseError>(preorder_all(ns)[0]));
}

} // verus!
