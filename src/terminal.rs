//! The command line that re-runs a script under an emulated IPC channel.
use vstd::prelude::*;
use vstd::string::{StrSliceExecFns, StringExecFns};

verus! {

/// Entry point of the process-execution layer.
pub struct RustPseudoTerminal {}

/// The script path as one shell word: wrapped in double quotes where it
/// holds a space, unchanged otherwise.
pub open spec fn script_word(fork_script: Seq<char>) -> Seq<char> {
    if fork_script.contains(' ') {
        seq!['"'] + fork_script + seq!['"']
    } else {
        fork_script
    }
}

/// `node <script> <channel path> <id>`, space separated, with the script
/// path as one word.
pub open spec fn fork_command_text(id: Seq<char>, fork_script: Seq<char>, pseudo_ipc_path: Seq<char>) -> Seq<char> {
    seq!['n', 'o', 'd', 'e', ' '] + script_word(fork_script) + seq![' '] + pseudo_ipc_path + seq![' '] + id
}

/// Whether `s` holds a space.
pub fn has_space(s: &str) -> (r: bool)
    ensures
        r == s@.contains(' '),
{
    let n = s.unicode_len();
    let mut i: usize = 0;
    while i < n
        invariant
            n == s@.len(),
            i <= n,
            forall|k: int| 0 <= k < i ==> s@[k] != ' ',
        decreases n - i,
    {
        if s.get_char(i) == ' ' {
            assert(s@[i as int] == ' ');
            return true;
        }
        i = i + 1;
    }
    false
}

impl RustPseudoTerminal {
    pub fn new() -> (r: Self)
        ensures
            r == (RustPseudoTerminal {}),
    {
        RustPseudoTerminal {}
    }

    /// The command that runs `fork_script` with node, handing it the path of
    /// the emulated IPC channel and the id, in that order.
    pub fn fork_command(&self, id: &str, fork_script: &str, pseudo_ipc_path: &str) -> (r: String)
        ensures
            r@ == fork_command_text(id@, fork_script@, pseudo_ipc_path@),
    {
        let mut command = String::from_str("node ");
        proof {
            reveal_strlit("node ");
            reveal_strlit(" ");
            reveal_strlit("\"");
        }
        if has_space(fork_script) {
            command.append("\"");
            command.append(fork_script);
            command.append("\"");
        } else {
            command.append(fork_script);
        }
        command.append(" ");
        command.append(pseudo_ipc_path);
        command.append(" ");
        command.append(id);
        assert(command@ =~= fork_command_text(id@, fork_script@, pseudo_ipc_path@));
        command
    }
}

} // verus!
