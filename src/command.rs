use vstd::prelude::*;

verus! {

/// The step commands that a proof script can use.
#[derive(Debug, Clone, Copy, PartialEq, Eq, Structural)]
pub enum Command {
    Parameter,
    Theorem,
    Proof,
    ConI,
    ImpI,
    ImpE,
    Exact,
    PBC,
    NegE,
    NegNegE,
    Qed,
    Unknown,
}

/// The command that a keyword names; any other keyword is `Unknown`.
pub open spec fn command_of(k: Seq<char>) -> Command {
    if k == "Parameter"@ {
        Command::Parameter
    } else if k == "Theorem"@ {
        Command::Theorem
    } else if k == "Proof"@ {
        Command::Proof
    } else if k == "con_i"@ {
        Command::ConI
    } else if k == "imp_i"@ {
        Command::ImpI
    } else if k == "imp_e"@ {
        Command::ImpE
    } else if k == "exact"@ {
        Command::Exact
    } else if k == "PBC"@ {
        Command::PBC
    } else if k == "neg_e"@ {
        Command::NegE
    } else if k == "negneg_e"@ {
        Command::NegNegE
    } else if k == "Qed"@ {
        Command::Qed
    } else {
        Command::Unknown
    }
}

/// Whether the characters of `k` are those of the literal `w`.
fn same_chars(k: &[char], w: &str) -> (r: bool)
    ensures
        r == (k@ == w@),
{
    let n = w.unicode_len();
    if k.len() != n {
        return false;
    }
    let mut i: usize = 0;
    while i < n
        invariant
            n == w@.len(),
            k@.len() == n,
            i <= n,
            forall|j: int| 0 <= j < i ==> k@[j] == w@[j],
        decreases n - i,
    {
        if k[i] != w.get_char(i) {
            return false;
        }
        i = i + 1;
    }
    assert(k@ =~= w@);
    true
}

impl Command {
    /// How many parameters a step with this command must carry, where that is
    /// checked at all.
    pub open spec fn param_arity(self) -> Option<nat> {
        match self {
            Command::Parameter | Command::Theorem | Command::Unknown => None,
            Command::Proof | Command::NegNegE | Command::Qed | Command::ConI => Some(0),
            Command::ImpI | Command::ImpE | Command::Exact | Command::PBC | Command::NegE => Some(1),
        }
    }

    /// How many sub-steps follow a step with this command.
    pub open spec fn child_arity(self) -> nat {
        match self {
            Command::ConI | Command::ImpE | Command::NegE => 2,
            Command::ImpI | Command::PBC | Command::NegNegE => 1,
            _ => 0,
        }
    }

    /// Resolves a keyword; unrecognised keywords give `Unknown`.
    pub fn from_str(s: &[char]) -> (r: Command)
        ensures
            r == command_of(s@),
    {
        if same_chars(s, "Parameter") {
            Command::Parameter
        } else if same_chars(s, "Theorem") {
            Command::Theorem
        } else if same_chars(s, "Proof") {
            Command::Proof
        } else if same_chars(s, "con_i") {
            Command::ConI
        } else if same_chars(s, "imp_i") {
            Command::ImpI
        } else if same_chars(s, "imp_e") {
            Command::ImpE
        } else if same_chars(s, "exact") {
            Command::Exact
        } else if same_chars(s, "PBC") {
            Command::PBC
        } else if same_chars(s, "neg_e") {
            Command::NegE
        } else if same_chars(s, "negneg_e") {
            Command::NegNegE
        } else if same_chars(s, "Qed") {
            Command::Qed
        } else {
            Command::Unknown
        }
    }

    /// The number of parameters this command requires, or `None` where the
    /// count is not checked.
    pub fn num_params(&self) -> (r: Option<usize>)
        ensures
            r matches Some(n) ==> self.param_arity() == Some(n as nat),
            r is None <==> self.param_arity() is None,
    {
        match self {
            Command::Parameter | Command::Theorem | Command::Unknown => None,
            Command::Proof | Command::NegNegE | Command::Qed | Command::ConI => Some(0),
            Command::ImpI | Command::ImpE | Command::Exact | Command::PBC | Command::NegE => Some(1),
        }
    }

    /// The number of sub-steps this command requires.
    pub fn num_infers(&self) -> (r: usize)
        ensures
            r == self.child_arity(),
    {
        match self {
            Command::ConI | Command::ImpE | Command::NegE => 2,
            Command::ImpI | Command::PBC | Command::NegNegE => 1,
            _ => 0,
        }
    }
}

} // verus!
