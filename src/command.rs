//! The command table: names to commands, case-insensitively, and back.
use vstd::prelude::*;

verus! {

/// A command that the server understands.
#[derive(Debug, Clone, Copy, PartialEq, Eq, Structural)]
pub enum Command {
    Ping,
    Echo,
    Get,
    SetValue,
    Type,
    XAdd,
    Info,
    ReplConf,
    PSync,
}

/// The code of `c` with ASCII capitals taken to small letters.
pub open spec fn fold_case(c: char) -> u32 {
    if 65 <= (c as u32) <= 90 {
        (c as u32 + 32) as u32
    } else {
        c as u32
    }
}

/// `a` and `b` are the same text but for the case of ASCII letters.
pub open spec fn same_ignoring_case(a: Seq<char>, b: Seq<char>) -> bool {
    &&& a.len() == b.len()
    &&& forall|i: int| 0 <= i < a.len() ==> fold_case(#[trigger] a[i]) == fold_case(b[i])
}

/// The name of a command as it is rendered: upper case.
pub open spec fn name_of(c: Command) -> Seq<char> {
    match c {
        Command::Ping => seq!['P', 'I', 'N', 'G'],
        Command::Echo => seq!['E', 'C', 'H', 'O'],
        Command::Get => seq!['G', 'E', 'T'],
        Command::SetValue => seq!['S', 'E', 'T'],
        Command::Type => seq!['T', 'Y', 'P', 'E'],
        Command::XAdd => seq!['X', 'A', 'D', 'D'],
        Command::Info => seq!['I', 'N', 'F', 'O'],
        Command::ReplConf => seq!['R', 'E', 'P', 'L', 'C', 'O', 'N', 'F'],
        Command::PSync => seq!['P', 'S', 'Y', 'N', 'C'],
    }
}

/// The command that `s` names, whatever the case of its letters.
pub open spec fn command_of(s: Seq<char>) -> Option<Command> {
    if same_ignoring_case(s, name_of(Command::Ping)) {
        Some(Command::Ping)
    } else if same_ignoring_case(s, name_of(Command::Echo)) {
        Some(Command::Echo)
    } else if same_ignoring_case(s, name_of(Command::Get)) {
        Some(Command::Get)
    } else if same_ignoring_case(s, name_of(Command::SetValue)) {
        Some(Command::SetValue)
    } else if same_ignoring_case(s, name_of(Command::Type)) {
        Some(Command::Type)
    } else if same_ignoring_case(s, name_of(Command::XAdd)) {
        Some(Command::XAdd)
    } else if same_ignoring_case(s, name_of(Command::Info)) {
        Some(Command::Info)
    } else if same_ignoring_case(s, name_of(Command::ReplConf)) {
        Some(Command::ReplConf)
    } else if same_ignoring_case(s, name_of(Command::PSync)) {
        Some(Command::PSync)
    } else {
        None
    }
}

fn fold_char(c: char) -> (r: u32)
    ensures
        r == fold_case(c),
{
    let x = c as u32;
    if 65 <= x && x <= 90 {
        x + 32
    } else {
        x
    }
}

/// Whether `a` and `b` are the same text but for the case of ASCII letters.
pub fn eq_ignore_case(a: &str, b: &str) -> (r: bool)
    ensures
        r == same_ignoring_case(a@, b@),
{
    let n = a.unicode_len();
    if n != b.unicode_len() {
        return false;
    }
    let mut i: usize = 0;
    while i < n
        invariant
            i <= n == a@.len() == b@.len(),
            forall|j: int| 0 <= j < i ==> fold_case(#[trigger] a@[j]) == fold_case(b@[j]),
        decreases n - i,
    {
        if fold_char(a.get_char(i)) != fold_char(b.get_char(i)) {
            return false;
        }
        i = i + 1;
    }
    true
}

impl Command {
    /// The name of this command, in upper case.
    pub fn name(&self) -> (r: &'static str)
        ensures
            r@ == name_of(*self),
    {
        match self {
            Command::Ping => {
                proof {
                    reveal_strlit("PING");
                }
                assert("PING"@ =~= name_of(*self));
                "PING"
            },
            Command::Echo => {
                proof {
                    reveal_strlit("ECHO");
                }
                assert("ECHO"@ =~= name_of(*self));
                "ECHO"
            },
            Command::Get => {
                proof {
                    reveal_strlit("GET");
                }
                assert("GET"@ =~= name_of(*self));
                "GET"
            },
            Command::SetValue => {
                proof {
                    reveal_strlit("SET");
                }
                assert("SET"@ =~= name_of(*self));
                "SET"
            },
            Command::Type => {
                proof {
                    reveal_strlit("TYPE");
                }
                assert("TYPE"@ =~= name_of(*self));
                "TYPE"
            },
            Command::XAdd => {
                proof {
                    reveal_strlit("XADD");
                }
                assert("XADD"@ =~= name_of(*self));
                "XADD"
            },
            Command::Info => {
                proof {
                    reveal_strlit("INFO");
                }
                assert("INFO"@ =~= name_of(*self));
                "INFO"
            },
            Command::ReplConf => {
                proof {
                    reveal_strlit("REPLCONF");
                }
                assert("REPLCONF"@ =~= name_of(*self));
                "REPLCONF"
            },
            Command::PSync => {
                proof {
                    reveal_strlit("PSYNC");
                }
                assert("PSYNC"@ =~= name_of(*self));
                "PSYNC"
            },
        }
    }

    /// The name of this command as an owned string, in upper case.
    pub fn to_string(&self) -> (r: String)
        ensures
            r@ == name_of(*self),
    {
        self.name().to_owned()
    }

    fn is_named(s: &str, c: Command) -> (r: bool)
        ensures
            r == same_ignoring_case(s@, name_of(c)),
    {
        eq_ignore_case(s, c.name())
    }

    /// The command that `s` names, with no regard to the case of its letters.
    pub fn parse(s: &str) -> (r: Option<Command>)
        ensures
            r == command_of(s@),
    {
        if Command::is_named(s, Command::Ping) {
            Some(Command::Ping)
        } else if Command::is_named(s, Command::Echo) {
            Some(Command::Echo)
        } else if Command::is_named(s, Command::Get) {
            Some(Command::Get)
        } else if Command::is_named(s, Command::SetValue) {
            Some(Command::SetValue)
        } else if Command::is_named(s, Command::Type) {
            Some(Command::Type)
        } else if Command::is_named(s, Command::XAdd) {
            Some(Command::XAdd)
        } else if Command::is_named(s, Command::Info) {
            Some(Command::Info)
        } else if Command::is_named(s, Command::ReplConf) {
            Some(Command::ReplConf)
        } else if Command::is_named(s, Command::PSync) {
            Some(Command::PSync)
        } else {
            None
        }
    }
}

proof fn lemma_same_ignoring_case_against(a: Seq<char>, b: Seq<char>, n: Seq<char>)
    requires
        same_ignoring_case(a, b),
    ensures
        same_ignoring_case(a, n) <==> same_ignoring_case(b, n),
{
    if same_ignoring_case(a, n) {
        assert forall|i: int| 0 <= i < b.len() implies fold_case(#[trigger] b[i]) == fold_case(n[i]) by {
            assert(fold_case(a[i]) == fold_case(b[i]));
        }
    }
    if same_ignoring_case(b, n) {
        assert forall|i: int| 0 <= i < a.len() implies fold_case(#[trigger] a[i]) == fold_case(n[i]) by {
            assert(fold_case(a[i]) == fold_case(b[i]));
        }
    }
}

/// Command names are read without regard to case: two spellings that differ
/// only in the case of ASCII letters name the same command, or both none.
pub proof fn lemma_parse_ignores_case(a: Seq<char>, b: Seq<char>)
    requires
        same_ignoring_case(a, b),
    ensures
        command_of(a) == command_of(b),
{
    lemma_same_ignoring_case_against(a, b, name_of(Command::Ping));
    lemma_same_ignoring_case_against(a, b, name_of(Command::Echo));
    lemma_same_ignoring_case_against(a, b, name_of(Command::Get));
    lemma_same_ignoring_case_against(a, b, name_of(Command::SetValue));
    lemma_same_ignoring_case_against(a, b, name_of(Command::Type));
    lemma_same_ignoring_case_against(a, b, name_of(Command::XAdd));
    lemma_same_ignoring_case_against(a, b, name_of(Command::Info));
    lemma_same_ignoring_case_against(a, b, name_of(Command::ReplConf));
    lemma_same_ignoring_case_against(a, b, name_of(Command::PSync));
}

} // verus!
