use file_sharing_example::command::{
    Command, CommandResponse, CommandResult, GetFile, ListFiles, Register,
};
use file_sharing_example::error::FileSharingError;

fn register(user: &str) -> Command {
    Command::Register(Register { user_name: user.to_string() })
}

fn list_files(user: &str) -> Command {
    Command::ListFiles(ListFiles { user_name: user.to_string() })
}

fn get_file(user: &str, file: &str) -> Command {
    Command::GetFile(GetFile { user_name: user.to_string(), file_name: file.to_string() })
}

fn is_invalid(line: &str) -> bool {
    matches!(Command::parse_line(line), Err(FileSharingError::InvalidCommand))
}

#[test]
fn parses_register() {
    assert_eq!(Command::parse_line("register alice").unwrap(), register("alice"));
}

#[test]
fn register_takes_the_second_word_only() {
    assert_eq!(Command::parse_line("  register \t alice  bob ").unwrap(), register("alice"));
}

#[test]
fn register_without_name_is_invalid() {
    assert!(is_invalid("register"));
    assert!(is_invalid("register   "));
}

#[test]
fn parses_list_peers() {
    assert_eq!(Command::parse_line("ls_peers").unwrap(), Command::ListPeers);
    assert_eq!(Command::parse_line("ls_peers extra words").unwrap(), Command::ListPeers);
}

#[test]
fn parses_list_files() {
    assert_eq!(Command::parse_line("ls@bob").unwrap(), list_files("bob"));
    assert_eq!(Command::parse_line("ls@").unwrap(), list_files(""));
    assert_eq!(Command::parse_line("ls@ls@x").unwrap(), list_files("ls@x"));
}

#[test]
fn parses_get_file() {
    assert_eq!(Command::parse_line("get@user1->tmp_file.txt").unwrap(), get_file("user1", "tmp_file.txt"));
}

#[test]
fn get_file_takes_the_piece_between_the_first_two_arrows() {
    assert_eq!(Command::parse_line("get@bob->a->b").unwrap(), get_file("bob", "a"));
    assert_eq!(Command::parse_line("get@bob->").unwrap(), get_file("bob", ""));
    assert_eq!(Command::parse_line("get@->f").unwrap(), get_file("", "f"));
    assert_eq!(Command::parse_line("get@a-->f").unwrap(), get_file("a-", "f"));
    assert_eq!(Command::parse_line("get@a->>f").unwrap(), get_file("a", ">f"));
}

#[test]
fn get_file_without_arrow_is_invalid() {
    assert!(is_invalid("get@bob"));
    assert!(is_invalid("get@bob-file"));
}

#[test]
fn unknown_or_empty_lines_are_invalid() {
    assert!(is_invalid(""));
    assert!(is_invalid("   \t "));
    assert!(is_invalid("foo"));
    assert!(is_invalid("GET@a->b"));
    assert!(is_invalid("registers alice"));
    assert!(is_invalid("ls_peer"));
}

#[test]
fn unicode_white_space_separates_words() {
    assert_eq!(Command::parse_line("\u{3000}ls_peers").unwrap(), Command::ListPeers);
    assert_eq!(Command::parse_line("register\u{a0}carol").unwrap(), register("carol"));
    assert_eq!(Command::parse_line("\nls@dave\r\n").unwrap(), list_files("dave"));
}

#[test]
fn non_ascii_names_are_kept() {
    assert_eq!(Command::parse_line("get@黑风->雷.txt").unwrap(), get_file("黑风", "雷.txt"));
}

#[test]
fn from_str_parses_like_parse_line() {
    let c: Command = "get@u->f".parse().unwrap();
    assert_eq!(c, get_file("u", "f"));
    assert!(matches!("nope".parse::<Command>(), Err(FileSharingError::InvalidCommand)));
}

#[test]
fn typed_commands_read_back() {
    for c in [register("alice"), Command::ListPeers, list_files("bob"), get_file("bob", "x.bin")] {
        let line = match &c {
            Command::Register(r) => format!("register {}", r.user_name),
            Command::ListPeers => "ls_peers".to_string(),
            Command::ListFiles(l) => format!("ls@{}", l.user_name),
            Command::GetFile(g) => format!("get@{}->{}", g.user_name, g.file_name),
        };
        assert_eq!(Command::parse_line(&line).unwrap(), c);
    }
}

#[test]
fn constructors_build_the_commands() {
    assert_eq!(Command::new_register("a".to_string()), register("a"));
    assert_eq!(Command::new_list_peers(), Command::ListPeers);
    assert_eq!(Command::new_list_files("b".to_string()), list_files("b"));
    assert_eq!(Command::new_get_file("c".to_string(), "d".to_string()), get_file("c", "d"));
    assert_eq!(Register::new("a".to_string()).user_name, "a");
    assert_eq!(ListFiles::new("b".to_string()).user_name, "b");
    let g = GetFile::new("c".to_string(), "d".to_string());
    assert_eq!((g.user_name.as_str(), g.file_name.as_str()), ("c", "d"));
}

#[test]
fn command_response_new_keeps_its_fields() {
    let r = CommandResponse::new(7, CommandResult::ListFiles(vec!["a".to_string()]));
    assert_eq!(r.command_request_id, 7);
    assert_eq!(r.result, CommandResult::ListFiles(vec!["a".to_string()]));
}

#[test]
fn words_split_exactly_at_unicode_white_space() {
    for u in 0u32..0x3100 {
        if let Some(c) = char::from_u32(u) {
            let line = format!("register{}x", c);
            let splits = matches!(Command::parse_line(&line), Ok(Command::Register(Register { user_name })) if user_name == "x");
            assert_eq!(splits, c.is_whitespace(), "character {:#x}", u);
        }
    }
}
