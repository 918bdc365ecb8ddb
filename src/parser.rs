use vstd::prelude::*;
use vstd::slice::slice_subrange;
use crate::command::{Command, command_of};
use crate::inference::{Inference, Node};
use crate::text::{chars_of, has_prefix, lines_of, split, split_chars, split_lines, starts_with, string_of, views};

verus! {

/// Why a script could not be parsed.
#[derive(Debug, Clone, Copy, PartialEq, Eq, Structural)]
pub enum ParseError {
    /// No line begins with the theorem keyword.
    MissingTheorem,
    /// The theorem line holds no colon before its goal statement.
    MalformedHeader,
    /// A step carries more or fewer parameters than its command requires.
    ParameterCountMismatch,
    /// The script ended while a step still required sub-steps.
    UnexpectedEndOfInput,
}

/// Whether a character ends the keyword of a step line.
pub open spec fn ends_keyword(c: char) -> bool {
    c == ' ' || c == '.'
}

/// The index of the first keyword-ending character at or after `i`, or 0
/// where there is none.
pub open spec fn keyword_end_from(l: Seq<char>, i: int) -> int
    decreases l.len() - i,
{
    if i >= l.len() {
        0
    } else if ends_keyword(l[i]) {
        i
    } else {
        keyword_end_from(l, i + 1)
    }
}

/// The keyword of a step line: what precedes its first space or period
/// (nothing, where it has neither).
pub open spec fn keyword(l: Seq<char>) -> Seq<char> {
    l.subrange(0, keyword_end_from(l, 0))
}

/// The command a step line names.
pub open spec fn line_command(l: Seq<char>) -> Command {
    command_of(keyword(l))
}

/// A line without its final character, the terminating period.
pub open spec fn unterminated(l: Seq<char>) -> Seq<char> {
    if l.len() > 0 {
        l.drop_last()
    } else {
        l
    }
}

/// The parameter tokens of a step line: the space-separated words of the
/// unterminated line after the first.
pub open spec fn params(l: Seq<char>) -> Seq<Seq<char>> {
    split(unterminated(l), ' ').drop_first()
}

/// Whether steps with this command cite their first parameter as a label.
pub open spec fn cites_label(c: Command) -> bool {
    c == Command::ImpI || c == Command::Exact || c == Command::PBC
}

/// The node a single step line stands for, before its sub-steps are read.
pub open spec fn tokenize(l: Seq<char>) -> Result<Node, ParseError> {
    let c = line_command(l);
    let p = params(l);
    if c.param_arity() matches Some(n) && p.len() != n {
        Err(ParseError::ParameterCountMismatch)
    } else if cites_label(c) {
        Ok(Node { cmd: c, body: "body tba..."@, labels: seq![p[0]], children: seq![] })
    } else {
        Ok(Node { cmd: c, body: seq![], labels: seq![], children: seq![] })
    }
}

/// Whether an executable result is the one that a spec result describes.
pub open spec fn same_result(r: Result<Inference, ParseError>, s: Result<Node, ParseError>) -> bool {
    match s {
        Ok(n) => r matches Ok(i) && i@ == n,
        Err(e) => r == Err::<Inference, ParseError>(e),
    }
}

fn keyword_len(line: &[char]) -> (r: usize)
    ensures
        r <= line@.len(),
        r == keyword_end_from(line@, 0),
{
    let mut i: usize = 0;
    while i < line.len() && line[i] != ' ' && line[i] != '.'
        invariant
            i <= line@.len(),
            keyword_end_from(line@, 0) == keyword_end_from(line@, i as int),
        decreases line.len() - i,
    {
        i = i + 1;
    }
    if i == line.len() {
        0
    } else {
        i
    }
}

/// The index of the first line at or after `k` that begins with the proof
/// keyword; where there is none, the greater of `k` and the number of lines.
pub open spec fn marker_from(lines: Seq<Seq<char>>, k: int) -> int
    decreases lines.len() - k,
{
    if k >= lines.len() {
        k
    } else if starts_with(lines[k], "Proof"@) {
        k
    } else {
        marker_from(lines, k + 1)
    }
}

/// The index of the first line at or after `i` that begins with the theorem
/// keyword.
pub open spec fn theorem_from(lines: Seq<Seq<char>>, i: int) -> Option<int>
    decreases lines.len() - i,
{
    if i >= lines.len() {
        None
    } else if starts_with(lines[i], "Theorem"@) {
        Some(i)
    } else {
        theorem_from(lines, i + 1)
    }
}

/// Whether a character is kept in the theorem line: periods and spaces are not.
pub open spec fn kept(c: char) -> bool {
    c != '.' && c != ' '
}

/// A line with its periods and spaces removed.
pub open spec fn squeezed(l: Seq<char>) -> Seq<char>
    decreases l.len(),
{
    if l.len() == 0 {
        l
    } else if kept(l.last()) {
        squeezed(l.drop_last()).push(l.last())
    } else {
        squeezed(l.drop_last())
    }
}

/// The goal statement of a theorem line: what follows its last colon, once
/// periods and spaces are removed.
pub open spec fn goal_of(l: Seq<char>) -> Result<Seq<char>, ParseError> {
    let t = squeezed(l);
    if t.contains(':') {
        Ok(split(t, ':').last())
    } else {
        Err(ParseError::MalformedHeader)
    }
}

/// The goal statement of a script: that of its first theorem line.
pub open spec fn header(lines: Seq<Seq<char>>) -> Result<Seq<char>, ParseError> {
    match theorem_from(lines, 0) {
        None => Err(ParseError::MissingTheorem),
        Some(i) => goal_of(lines[i]),
    }
}

/// The tree that parsing a script yields with the cursor at `c`: a theorem
/// node holding the goal statement, with the one step read after the first
/// proof marker past `c` (and that step's own sub-steps) as its child.
pub open spec fn parse_result(lines: Seq<Seq<char>>, c: int) -> Result<Node, ParseError> {
    match header(lines) {
        Err(e) => Err(e),
        Ok(g) => match steps(lines, marker_from(lines, c + 1), 1) {
            Err(e) => Err(e),
            Ok((ns, _)) => Ok(Node { cmd: Command::Theorem, body: g, labels: seq![], children: ns }),
        },
    }
}

/// How many lines lie beyond index `c`: what the tree builder has left.
pub open spec fn lines_left(lines: Seq<Seq<char>>, c: int) -> nat {
    if c < lines.len() {
        (lines.len() - c) as nat
    } else {
        0
    }
}

/// The subtree whose first line follows the line at index `c`, with the
/// number of lines it takes up.
pub open spec fn step_tree(lines: Seq<Seq<char>>, c: int) -> Result<(Node, nat), ParseError>
    decreases lines_left(lines, c), 0nat, 0nat,
{
    if c + 1 >= lines.len() || c + 1 < 0 {
        Err(ParseError::UnexpectedEndOfInput)
    } else {
        match tokenize(lines[c + 1]) {
            Err(e) => Err(e),
            Ok(n) => match steps(lines, c + 1, n.cmd.child_arity()) {
                Err(e) => Err(e),
                Ok((ch, k)) => Ok((Node { children: ch, ..n }, k + 1)),
            },
        }
    }
}

/// The `n` consecutive subtrees whose lines follow the line at index `c`,
/// each read depth-first, with the number of lines they take up together.
pub open spec fn steps(lines: Seq<Seq<char>>, c: int, n: nat) -> Result<(Seq<Node>, nat), ParseError>
    decreases lines_left(lines, c), 1nat, n,
{
    if n == 0 {
        Ok((seq![], 0))
    } else {
        match step_tree(lines, c) {
            Err(e) => Err(e),
            Ok((t, k)) => match steps(lines, c + k, (n - 1) as nat) {
                Err(e) => Err(e),
                Ok((ts, k2)) => Ok((seq![t] + ts, k + k2)),
            },
        }
    }
}

/// A result of `steps` with the subtrees `ts`, taking up `k` lines, put in front.
pub open spec fn prepend(
    ts: Seq<Node>,
    k: nat,
    r: Result<(Seq<Node>, nat), ParseError>,
) -> Result<(Seq<Node>, nat), ParseError> {
    match r {
        Ok((ns, k2)) => Ok((ts + ns, k + k2)),
        Err(e) => Err(e),
    }
}

proof fn lemma_prepend_twice(a: Seq<Node>, ka: nat, b: Seq<Node>, kb: nat, r: Result<(Seq<Node>, nat), ParseError>)
    ensures
        prepend(a, ka, prepend(b, kb, r)) == prepend(a + b, ka + kb, r),
{
    if let Ok((ns, k)) = r {
        assert(a + (b + ns) =~= (a + b) + ns);
    }
}

/// Whether `f` can answer `b` on a line with the characters `l`.
pub open spec fn answers<F: Fn(&[char]) -> bool>(f: F, l: Seq<char>, b: bool) -> bool {
    exists|s: &[char]| s@ == l && f.ensures((s,), b)
}

/// Whether a line marks the start of the proof.
fn is_proof_marker(line: &[char]) -> (r: bool)
    ensures
        r == starts_with(line@, "Proof"@),
{
    has_prefix(line, "Proof")
}

proof fn lemma_marker_at(lines: Seq<Seq<char>>, from: int, j: int)
    requires
        from <= j <= lines.len(),
        forall|k: int| from <= k < j ==> !starts_with(#[trigger] lines[k], "Proof"@),
        j < lines.len() ==> starts_with(lines[j], "Proof"@),
    ensures
        marker_from(lines, from) == j,
    decreases j - from,
{
    if from < j {
        lemma_marker_at(lines, from + 1, j);
    }
}

/// A script's lines and a cursor on them.
pub struct Parser {
    lines: Vec<Vec<char>>,
    cursor: usize,
}

/// The value of a parser: the lines of its script and the index of the last
/// line it has read. Line 0 counts as read from the start.
pub struct ParserView {
    pub lines: Seq<Seq<char>>,
    pub cursor: int,
}

impl View for Parser {
    type V = ParserView;

    closed spec fn view(&self) -> ParserView {
        ParserView { lines: views(self.lines@), cursor: self.cursor as int }
    }
}

impl Parser {
    /// A parser over the lines of `source`, before its first line is read.
    pub fn new(source: &str) -> (r: Parser)
        ensures
            r@ == (ParserView { lines: lines_of(source@), cursor: 0 }),
    {
        let chars = chars_of(source);
        Parser { lines: split_lines(chars.as_slice()), cursor: 0 }
    }

    /// The index of the last line read.
    pub fn cursor(&self) -> (r: usize)
        ensures
            r == self@.cursor,
    {
        self.cursor
    }

    /// Moves the cursor `n` lines on.
    pub fn skip(&mut self, n: usize)
        requires
            old(self)@.cursor + n <= usize::MAX,
        ensures
            final(self)@.lines == old(self)@.lines,
            final(self)@.cursor == old(self)@.cursor + n,
    {
        self.cursor = self.cursor + n;
    }

    /// Advances the cursor by one line and returns that line, or `None` where
    /// the cursor has passed the last line.
    pub fn next(&mut self) -> (r: Option<&Vec<char>>)
        requires
            old(self)@.cursor < usize::MAX,
        ensures
            final(self)@.lines == old(self)@.lines,
            final(self)@.cursor == old(self)@.cursor + 1,
            old(self)@.cursor + 1 < old(self)@.lines.len() ==> (r matches Some(l) && l@ == old(
                self,
            )@.lines[old(self)@.cursor + 1]),
            old(self)@.cursor + 1 >= old(self)@.lines.len() ==> r is None,
    {
        self.skip(1);
        if self.cursor < self.lines.len() {
            Some(&self.lines[self.cursor])
        } else {
            None
        }
    }

    /// Reads one step line into a node without sub-steps.
    pub fn parse_line(line: &[char]) -> (r: Result<Inference, ParseError>)
        ensures
            same_result(r, tokenize(line@)),
    {
        let k = keyword_len(line);
        let cmd = Command::from_str(slice_subrange(line, 0, k));
        let body = if line.len() > 0 {
            slice_subrange(line, 0, line.len() - 1)
        } else {
            line
        };
        let parts = split_chars(body, ' ');
        proof {
            crate::text::lemma_split_nonempty(body@, ' ');
        }
        let count = parts.len() - 1;
        assert(count == params(line@).len());
        if let Some(pn) = cmd.num_params() {
            if count != pn {
                return Err(ParseError::ParameterCountMismatch);
            }
        }
        match cmd {
            Command::ImpI | Command::Exact | Command::PBC => {
                let mut inf = Inference::new(cmd, String::from_str("body tba..."));
                inf.add_label(string_of(parts[1].as_slice()));
                Ok(inf)
            },
            _ => Ok(Inference::new(cmd, String::new())),
        }
    }

    /// Reads `num_infers` steps, each with the sub-steps its command
    /// requires, depth-first, and attaches them to `parent` in order.
    pub fn recursively_parse(&mut self, parent: &mut Inference, num_infers: usize) -> (r: Result<(), ParseError>)
        ensures
            final(self)@.lines == old(self)@.lines,
            match steps(old(self)@.lines, old(self)@.cursor, num_infers as nat) {
                Ok((ns, k)) => {
                    &&& r is Ok
                    &&& final(self)@.cursor == old(self)@.cursor + k
                    &&& final(parent)@ == (Node { children: old(parent)@.children + ns, ..old(parent)@ })
                },
                Err(e) => r == Err::<(), ParseError>(e),
            },
        decreases lines_left(old(self)@.lines, old(self)@.cursor),
    {
        let ghost lines = self@.lines;
        let ghost c0 = self@.cursor;
        let ghost p0 = parent@;
        let ghost mut added: Seq<Node> = seq![];
        let mut i: usize = 0;
        while i < num_infers
            invariant
                lines == old(self)@.lines,
                c0 == old(self)@.cursor,
                p0 == old(parent)@,
                self@.lines == lines,
                c0 <= self@.cursor,
                i <= num_infers,
                parent@ == (Node { children: p0.children + added, ..p0 }),
                steps(lines, c0, num_infers as nat) == prepend(
                    added,
                    (self@.cursor - c0) as nat,
                    steps(lines, self@.cursor, (num_infers - i) as nat),
                ),
            decreases num_infers - i,
        {
            let ghost c = self@.cursor;
            if self.cursor == usize::MAX {
                // No line lies beyond the largest index.
                assert(self@.lines.len() == self.lines.len());
                return Err(ParseError::UnexpectedEndOfInput);
            }
            let line = match self.next() {
                Some(l) => l,
                None => {
                    return Err(ParseError::UnexpectedEndOfInput);
                },
            };
            let mut infer = match Self::parse_line(line.as_slice()) {
                Ok(inf) => inf,
                Err(e) => {
                    return Err(e);
                },
            };
            let sub_num_infer = infer.cmd().num_infers();
            match self.recursively_parse(&mut infer, sub_num_infer) {
                Ok(()) => {},
                Err(e) => {
                    return Err(e);
                },
            }
            proof {
                let t = infer@;
                let k = (self@.cursor - c) as nat;
                assert(step_tree(lines, c) == Ok::<(Node, nat), ParseError>((t, k)));
                assert(steps(lines, c, (num_infers - i) as nat) == prepend(
                    seq![t],
                    k,
                    steps(lines, self@.cursor, (num_infers - i - 1) as nat),
                ));
                lemma_prepend_twice(
                    added,
                    (c - c0) as nat,
                    seq![t],
                    k,
                    steps(lines, self@.cursor, (num_infers - i - 1) as nat),
                );
                assert(p0.children + added.push(t) =~= (p0.children + added).push(t));
                assert(added.push(t) =~= added + seq![t]);
                added = added.push(t);
            }
            parent.add_infer(infer);
            i = i + 1;
        }
        proof {
            assert(added + seq![] =~= added);
        }
        Ok(())
    }

    /// Advances line by line until a line on which `f` holds, or to the end.
    pub fn skip_while<F: Fn(&[char]) -> bool>(&mut self, f: F)
        requires
            old(self)@.cursor < usize::MAX,
            forall|l: &[char]| f.requires((l,)),
        ensures
            final(self)@.lines == old(self)@.lines,
            old(self)@.cursor < final(self)@.cursor,
            final(self)@.cursor <= old(self)@.cursor + 1 || final(self)@.cursor <= old(self)@.lines.len(),
            forall|k: int|
                old(self)@.cursor < k < final(self)@.cursor ==> answers(f, old(self)@.lines[k], false),
            final(self)@.cursor < old(self)@.lines.len() ==> answers(f, old(self)@.lines[final(self)@.cursor], true),
    {
        let ghost c0 = self@.cursor;
        assert(self@.lines.len() == self.lines.len());
        loop
            invariant_except_break
                self@.cursor == c0 || self@.cursor < self@.lines.len(),
                forall|k: int|
                    c0 < k <= self@.cursor && k < self@.lines.len() ==> answers(f, self@.lines[k], false),
            invariant
                self@.lines == old(self)@.lines,
                self@.lines.len() <= usize::MAX,
                c0 == old(self)@.cursor,
                c0 < usize::MAX,
                c0 <= self@.cursor,
                forall|l: &[char]| f.requires((l,)),
            ensures
                c0 < self@.cursor,
                self@.cursor <= c0 + 1 || self@.cursor <= self@.lines.len(),
                forall|k: int|
                    c0 < k < self@.cursor ==> answers(f, self@.lines[k], false),
                self@.cursor < self@.lines.len() ==> answers(f, self@.lines[self@.cursor], true),
            decreases lines_left(self@.lines, self@.cursor),
        {
            match self.next() {
                None => {
                    break;
                },
                Some(line) => {
                    if f(line.as_slice()) {
                        break;
                    }
                },
            }
        }
    }

    /// The goal statement of the script's first theorem line.
    pub fn extract_goal(&self) -> (r: Result<String, ParseError>)
        ensures
            match header(self@.lines) {
                Ok(g) => r matches Ok(s) && s@ == g,
                Err(e) => r == Err::<String, ParseError>(e),
            },
    {
        let ghost lines = self@.lines;
        let mut i: usize = 0;
        while i < self.lines.len() && !has_prefix(self.lines[i].as_slice(), "Theorem")
            invariant
                lines == self@.lines,
                i <= lines.len(),
                theorem_from(lines, 0) == theorem_from(lines, i as int),
            decreases self.lines.len() - i,
        {
            i = i + 1;
        }
        if i == self.lines.len() {
            return Err(ParseError::MissingTheorem);
        }
        let line = self.lines[i].as_slice();
        assert(line@ == lines[i as int]);
        let mut t: Vec<char> = Vec::new();
        let mut j: usize = 0;
        while j < line.len()
            invariant
                j <= line@.len(),
                t@ == squeezed(line@.subrange(0, j as int)),
            decreases line.len() - j,
        {
            let c = line[j];
            if c != '.' && c != ' ' {
                t.push(c);
            }
            assert(line@.subrange(0, j + 1).drop_last() =~= line@.subrange(0, j as int));
            j = j + 1;
        }
        assert(line@.subrange(0, line@.len() as int) =~= line@);
        let parts = split_chars(t.as_slice(), ':');
        proof {
            crate::text::lemma_split_single(t@, ':');
            crate::text::lemma_split_nonempty(t@, ':');
        }
        if parts.len() == 1 {
            return Err(ParseError::MalformedHeader);
        }
        Ok(string_of(parts[parts.len() - 1].as_slice()))
    }

    /// Parses the script from the cursor on: the goal statement of its
    /// theorem line becomes the root, and the step after the proof marker,
    /// with all the sub-steps it requires, becomes the root's one child.
    pub fn parse(&mut self) -> (r: Result<Inference, ParseError>)
        requires
            old(self)@.cursor < usize::MAX,
        ensures
            final(self)@.lines == old(self)@.lines,
            same_result(r, parse_result(old(self)@.lines, old(self)@.cursor)),
            r is Ok ==> (steps(old(self)@.lines, marker_from(old(self)@.lines, old(self)@.cursor + 1), 1)
                matches Ok((_, k)) && final(self)@.cursor == marker_from(
                old(self)@.lines,
                old(self)@.cursor + 1,
            ) + k),
    {
        let ghost lines = self@.lines;
        let ghost c0 = self@.cursor;
        let goal = match self.extract_goal() {
            Ok(g) => g,
            Err(e) => {
                return Err(e);
            },
        };
        let mut root = Inference::new(Command::Theorem, goal);
        self.skip_while(is_proof_marker);
        proof {
            let j = self@.cursor;
            if j <= lines.len() {
                assert forall|k: int| c0 + 1 <= k < j implies !starts_with(#[trigger] lines[k], "Proof"@) by {
                    assert(answers(is_proof_marker, lines[k], false));
                }
                if j < lines.len() {
                    assert(answers(is_proof_marker, lines[j], true));
                }
                lemma_marker_at(lines, c0 + 1, j);
            }
            assert(j == marker_from(lines, c0 + 1));
        }
        match self.recursively_parse(&mut root, 1) {
            Ok(()) => {
                assert(seq![] + root@.children =~= root@.children);
                Ok(root)
            },
            Err(e) => Err(e),
        }
    }
}

} // verus!