use vstd::prelude::*;

use crate::error::FileSharingError;
use crate::text::{
    is_white_space, skip_white, word_end,
    chars_of, find_arrow, find_arrow_from, lemma_find_arrow_bounds, next_word, next_word_from,
    range_equals, range_starts_with, substring,
};

verus! {

/// A command typed by the user of a node.
#[derive(Debug, Clone, PartialEq)]
pub enum Command {
    /// Register this node at the rendezvous point under a user name.
    Register(Register),
    /// List the user names registered at the rendezvous point.
    ListPeers,
    /// List the files shared by a user.
    ListFiles(ListFiles),
    /// Fetch a file shared by a user.
    GetFile(GetFile),
}

/// The arguments of a register command.
#[derive(Debug, Clone, PartialEq)]
pub struct Register {
    pub user_name: String,
}

/// The arguments of a list-files command.
#[derive(Debug, Clone, PartialEq)]
pub struct ListFiles {
    pub user_name: String,
}

/// The arguments of a get-file command.
#[derive(Debug, Clone, PartialEq)]
pub struct GetFile {
    pub user_name: String,
    pub file_name: String,
}

/// The answer to a command.
#[derive(Debug)]
pub struct CommandResponse {
    pub command_request_id: u64,
    pub result: CommandResult,
}

/// What a command produced.
#[derive(Debug, Clone, PartialEq)]
pub enum CommandResult {
    Register,
    ListPeers(Vec<String>),
    ListFiles(Vec<String>),
    GetFile { user_name: String, file_name: String },
}

/// A command, with its strings taken as character sequences.
pub enum CommandView {
    Register { user_name: Seq<char> },
    ListPeers,
    ListFiles { user_name: Seq<char> },
    GetFile { user_name: Seq<char>, file_name: Seq<char> },
}

impl View for Command {
    type V = CommandView;

    open spec fn view(&self) -> CommandView {
        match self {
            Command::Register(r) => CommandView::Register { user_name: r.user_name@ },
            Command::ListPeers => CommandView::ListPeers,
            Command::ListFiles(l) => CommandView::ListFiles { user_name: l.user_name@ },
            Command::GetFile(g) => CommandView::GetFile {
                user_name: g.user_name@,
                file_name: g.file_name@,
            },
        }
    }
}

/// A command result, with its strings taken as character sequences.
pub enum CommandResultView {
    Register,
    ListPeers(Seq<Seq<char>>),
    ListFiles(Seq<Seq<char>>),
    GetFile { user_name: Seq<char>, file_name: Seq<char> },
}

/// The character sequences of a list of strings.
pub open spec fn strings_view(v: Seq<String>) -> Seq<Seq<char>> {
    v.map_values(|s: String| s@)
}

impl View for CommandResult {
    type V = CommandResultView;

    open spec fn view(&self) -> CommandResultView {
        match self {
            CommandResult::Register => CommandResultView::Register,
            CommandResult::ListPeers(names) => CommandResultView::ListPeers(strings_view(names@)),
            CommandResult::ListFiles(names) => CommandResultView::ListFiles(strings_view(names@)),
            CommandResult::GetFile { user_name, file_name } => CommandResultView::GetFile {
                user_name: user_name@,
                file_name: file_name@,
            },
        }
    }
}

impl CommandResponse {
    pub fn new(command_request_id: u64, result: CommandResult) -> (r: Self)
        ensures
            r.command_request_id == command_request_id,
            r.result == result,
    {
        Self { command_request_id, result }
    }
}

impl Command {
    pub fn new_register(user_name: String) -> (r: Self)
        ensures
            r@ == (CommandView::Register { user_name: user_name@ }),
    {
        Self::Register(Register::new(user_name))
    }

    pub fn new_list_peers() -> (r: Self)
        ensures
            r@ == CommandView::ListPeers,
    {
        Self::ListPeers
    }

    pub fn new_list_files(user_name: String) -> (r: Self)
        ensures
            r@ == (CommandView::ListFiles { user_name: user_name@ }),
    {
        Self::ListFiles(ListFiles::new(user_name))
    }

    pub fn new_get_file(user_name: String, file_name: String) -> (r: Self)
        ensures
            r@ == (CommandView::GetFile { user_name: user_name@, file_name: file_name@ }),
    {
        Self::GetFile(GetFile::new(user_name, file_name))
    }
}

impl Register {
    pub fn new(user_name: String) -> (r: Self)
        ensures
            r.user_name == user_name,
    {
        Self { user_name }
    }
}

impl ListFiles {
    pub fn new(user_name: String) -> (r: Self)
        ensures
            r.user_name == user_name,
    {
        Self { user_name }
    }
}

impl GetFile {
    pub fn new(user_name: String, file_name: String) -> (r: Self)
        ensures
            r.user_name == user_name,
            r.file_name == file_name,
    {
        Self { user_name, file_name }
    }
}

/// The command word `register`.
pub open spec fn register_word() -> Seq<char> {
    seq!['r', 'e', 'g', 'i', 's', 't', 'e', 'r']
}

/// The command word `ls_peers`.
pub open spec fn ls_peers_word() -> Seq<char> {
    seq!['l', 's', '_', 'p', 'e', 'e', 'r', 's']
}

/// The prefix `ls@` of a list-files command.
pub open spec fn ls_prefix() -> Seq<char> {
    seq!['l', 's', '@']
}

/// The prefix `get@` of a get-file command.
pub open spec fn get_prefix() -> Seq<char> {
    seq!['g', 'e', 't', '@']
}

/// The command that a typed line denotes, if any.
///
/// The line is split into words at white space. The first word selects the command:
/// `register <USERNAME>` (the second word is the user name), `ls_peers`,
/// `ls@<USERNAME>` (the rest of the word is the user name) and
/// `get@<USERNAME>-><FILENAME>`, where the rest of the word is split at each `->`:
/// the first piece is the user name and the second one the file name.
pub open spec fn parse_command(line: Seq<char>) -> Option<CommandView> {
    match next_word(line, 0) {
        None => None,
        Some((a, b)) => {
            let word = line.subrange(a, b);
            if word == register_word() {
                match next_word(line, b) {
                    None => None,
                    Some((c, d)) => Some(CommandView::Register { user_name: line.subrange(c, d) }),
                }
            } else if word == ls_peers_word() {
                Some(CommandView::ListPeers)
            } else if word.len() >= 3 && word.subrange(0, 3) == ls_prefix() {
                Some(CommandView::ListFiles { user_name: line.subrange(a + 3, b) })
            } else if word.len() >= 4 && word.subrange(0, 4) == get_prefix() {
                let p = find_arrow(line, a + 4, b);
                if p == b {
                    None
                } else {
                    let q = find_arrow(line, p + 2, b);
                    Some(
                        CommandView::GetFile {
                            user_name: line.subrange(a + 4, p),
                            file_name: line.subrange(p + 2, q),
                        },
                    )
                }
            } else {
                None
            }
        },
    }
}

impl Command {
    /// Reads a command from a typed line.
    pub fn parse_line(line: &str) -> (r: Result<Command, FileSharingError>)
        ensures
            match parse_command(line@) {
                Some(c) => r matches Ok(cmd) && cmd@ == c,
                None => r matches Err(FileSharingError::InvalidCommand),
            },
    {
        let chars = chars_of(line);
        let (a, b) = match next_word_from(&chars, 0) {
            Some(bounds) => bounds,
            None => return Err(FileSharingError::InvalidCommand),
        };
        let register_kw = vec!['r', 'e', 'g', 'i', 's', 't', 'e', 'r'];
        let ls_peers_kw = vec!['l', 's', '_', 'p', 'e', 'e', 'r', 's'];
        let ls_kw = vec!['l', 's', '@'];
        let get_kw = vec!['g', 'e', 't', '@'];
        assert(register_kw@ == register_word());
        assert(ls_peers_kw@ == ls_peers_word());
        assert(ls_kw@ == ls_prefix());
        assert(get_kw@ == get_prefix());
        let ghost word = chars@.subrange(a as int, b as int);
        if range_equals(&chars, a, b, &register_kw) {
            match next_word_from(&chars, b) {
                Some((c, d)) => Ok(Command::Register(Register { user_name: substring(line, c, d) })),
                None => Err(FileSharingError::InvalidCommand),
            }
        } else if range_equals(&chars, a, b, &ls_peers_kw) {
            Ok(Command::ListPeers)
        } else if range_starts_with(&chars, a, b, &ls_kw) {
            assert(word.subrange(0, 3) == chars@.subrange(a as int, a + 3));
            Ok(Command::ListFiles(ListFiles { user_name: substring(line, a + 3, b) }))
        } else if range_starts_with(&chars, a, b, &get_kw) {
            assert(word.subrange(0, 4) == chars@.subrange(a as int, a + 4));
            let p = find_arrow_from(&chars, a + 4, b);
            if p == b {
                Err(FileSharingError::InvalidCommand)
            } else {
                proof {
                    lemma_find_arrow_bounds(chars@, a + 4, b as int);
                }
                let q = find_arrow_from(&chars, p + 2, b);
                Ok(
                    Command::GetFile(
                        GetFile {
                            user_name: substring(line, a + 4, p),
                            file_name: substring(line, p + 2, q),
                        },
                    ),
                )
            }
        } else {
            proof {
                if word.len() >= 3 && word.subrange(0, 3) == ls_prefix() {
                    assert(word.subrange(0, 3) == chars@.subrange(a as int, a + 3));
                }
                if word.len() >= 4 && word.subrange(0, 4) == get_prefix() {
                    assert(word.subrange(0, 4) == chars@.subrange(a as int, a + 4));
                }
            }
            Err(FileSharingError::InvalidCommand)
        }
    }
}

impl std::str::FromStr for Command {
    type Err = FileSharingError;

    fn from_str(s: &str) -> (r: Result<Self, Self::Err>)
        ensures
            match parse_command(s@) {
                Some(c) => r matches Ok(cmd) && cmd@ == c,
                None => r matches Err(FileSharingError::InvalidCommand),
            },
    {
        Command::parse_line(s)
    }
}

} // verus!

verus! {

/// No character of `s` is white space.
pub open spec fn no_white_space(s: Seq<char>) -> bool {
    forall|i: int| 0 <= i < s.len() ==> !is_white_space(#[trigger] s[i])
}

/// `s` holds no `->`.
pub open spec fn no_arrow(s: Seq<char>) -> bool {
    forall|i: int| 0 <= i < s.len() - 1 ==> !(#[trigger] s[i] == '-' && s[i + 1] == '>')
}

/// The line that a user types for the command.
pub open spec fn command_line(c: CommandView) -> Seq<char> {
    match c {
        CommandView::Register { user_name } => register_word() + seq![' '] + user_name,
        CommandView::ListPeers => ls_peers_word(),
        CommandView::ListFiles { user_name } => ls_prefix() + user_name,
        CommandView::GetFile { user_name, file_name } => get_prefix() + user_name + seq![
            '-',
            '>',
        ] + file_name,
    }
}

/// Whether the command can be typed as a line: names hold no white space, a registered
/// name is not empty, and the names of a get-file command hold no `->`.
pub open spec fn typeable(c: CommandView) -> bool {
    match c {
        CommandView::Register { user_name } => user_name.len() > 0 && no_white_space(user_name),
        CommandView::ListPeers => true,
        CommandView::ListFiles { user_name } => no_white_space(user_name),
        CommandView::GetFile { user_name, file_name } => no_white_space(user_name)
            && no_white_space(file_name) && no_arrow(user_name) && no_arrow(file_name),
    }
}

proof fn lemma_word_end_to_end(s: Seq<char>, i: int)
    requires
        0 <= i <= s.len(),
        forall|k: int| i <= k < s.len() ==> !is_white_space(#[trigger] s[k]),
    ensures
        word_end(s, i) == s.len(),
    decreases s.len() - i,
{
    if i < s.len() {
        lemma_word_end_to_end(s, i + 1);
    }
}

proof fn lemma_find_arrow_none(s: Seq<char>, i: int, end: int)
    requires
        0 <= i <= end <= s.len(),
        forall|k: int| i <= k < end - 1 ==> !(#[trigger] s[k] == '-' && s[k + 1] == '>'),
    ensures
        find_arrow(s, i, end) == end,
    decreases end - i,
{
    if i + 1 < end {
        lemma_find_arrow_none(s, i + 1, end);
    }
}

proof fn lemma_find_arrow_at(s: Seq<char>, i: int, p: int, end: int)
    requires
        0 <= i <= p,
        p + 1 < end <= s.len(),
        s[p] == '-' && s[p + 1] == '>',
        forall|k: int| i <= k < p ==> !(#[trigger] s[k] == '-' && s[k + 1] == '>'),
    ensures
        find_arrow(s, i, end) == p,
    decreases p - i,
{
    if i < p {
        lemma_find_arrow_at(s, i + 1, p, end);
    }
}

/// A command typed as its line is read back as that command.
pub proof fn lemma_parse_command_line(c: CommandView)
    requires
        typeable(c),
    ensures
        parse_command(command_line(c)) == Some(c),
{
    let line = command_line(c);
    reveal_with_fuel(crate::text::skip_white, 2);
    match c {
        CommandView::Register { user_name } => {
            let n = user_name.len();
            assert(line.len() == 9 + n);
            assert(!is_white_space(line[0]));
            assert(line[8] == ' ');
            assert(is_white_space(line[8]));
            assert(word_end(line, 8) == 8);
            assert forall|k: int| 0 <= k < 8 implies !is_white_space(#[trigger] line[k]) by {}
            assert(word_end(line, 7) == 8);
            assert(word_end(line, 6) == 8);
            assert(word_end(line, 5) == 8);
            assert(word_end(line, 4) == 8);
            assert(word_end(line, 3) == 8);
            assert(word_end(line, 2) == 8);
            assert(word_end(line, 1) == 8);
            assert(word_end(line, 0) == 8);
            assert(next_word(line, 0) == Some((0int, 8int)));
            assert(line.subrange(0, 8) =~= register_word());
            assert(line[9] == user_name[0]);
            assert(skip_white(line, 9) == 9);
            assert(skip_white(line, 8) == 9);
            assert forall|k: int| 9 <= k < line.len() implies !is_white_space(#[trigger] line[k]) by {
                assert(line[k] == user_name[k - 9]);
            }
            lemma_word_end_to_end(line, 9);
            assert(next_word(line, 8) == Some((9int, line.len() as int)));
            assert(line.subrange(9, line.len() as int) =~= user_name);
        },
        CommandView::ListPeers => {
            assert forall|k: int| 0 <= k < line.len() implies !is_white_space(#[trigger] line[k]) by {}
            lemma_word_end_to_end(line, 0);
            assert(line.subrange(0, 8) =~= ls_peers_word());
            assert(line.subrange(0, 8) != register_word()) by {
                assert(line[0] != register_word()[0]);
            }
        },
        CommandView::ListFiles { user_name } => {
            assert forall|k: int| 0 <= k < line.len() implies !is_white_space(#[trigger] line[k]) by {
                if k >= 3 {
                    assert(line[k] == user_name[k - 3]);
                }
            }
            lemma_word_end_to_end(line, 0);
            let word = line.subrange(0, line.len() as int);
            assert(word.subrange(0, 3) =~= ls_prefix());
            assert(word != register_word()) by {
                assert(word[0] != register_word()[0]);
            }
            assert(word != ls_peers_word()) by {
                if word.len() == 8 {
                    assert(word[2] != ls_peers_word()[2]);
                }
            }
            assert(line.subrange(3, line.len() as int) =~= user_name);
        },
        CommandView::GetFile { user_name, file_name } => {
            let n = user_name.len();
            let p: int = 4 + n as int;
            assert(line.len() == 6 + n + file_name.len());
            assert forall|k: int| 0 <= k < line.len() implies !is_white_space(#[trigger] line[k]) by {
                if 4 <= k < p {
                    assert(line[k] == user_name[k - 4]);
                } else if p + 2 <= k {
                    assert(line[k] == file_name[k - p - 2]);
                }
            }
            lemma_word_end_to_end(line, 0);
            let b = line.len() as int;
            let word = line.subrange(0, b);
            assert(word.subrange(0, 4) =~= get_prefix());
            assert(word != register_word()) by {
                assert(word[0] != register_word()[0]);
            }
            assert(word != ls_peers_word()) by {
                assert(word[0] != ls_peers_word()[0]);
            }
            assert(!(word.len() >= 3 && word.subrange(0, 3) == ls_prefix())) by {
                assert(word[0] != ls_prefix()[0]);
            }
            assert(line[p] == '-' && line[p + 1] == '>');
            assert forall|k: int| 4 <= k < p implies !(#[trigger] line[k] == '-' && line[k + 1]
                == '>') by {
                assert(line[k] == user_name[k - 4]);
                if k + 1 < p {
                    assert(line[k + 1] == user_name[k - 3]);
                } else {
                    assert(line[k + 1] == '-');
                }
            }
            lemma_find_arrow_at(line, 4, p, b);
            assert forall|k: int| p + 2 <= k < b - 1 implies !(#[trigger] line[k] == '-' && line[k
                + 1] == '>') by {
                assert(line[k] == file_name[k - p - 2]);
                assert(line[k + 1] == file_name[k - p - 1]);
            }
            lemma_find_arrow_none(line, p + 2, b);
            assert(line.subrange(4, p) =~= user_name);
            assert(line.subrange(p + 2, b) =~= file_name);
        },
    }
}

} // verus!
