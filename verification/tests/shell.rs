use blockfs::fs::FileMode;
use blockfs::error::Error;
use blockfs::shell::{
    after_read, after_write, next_chunk, next_word, parse_command, parse_number, Command,
    Progress, Topic,
};

fn show(c: Command<'_>) -> String {
    format!("{:?}", c)
}

#[test]
fn words_are_split_at_every_blank() {
    assert_eq!(next_word(b"open f RW", 0), (&b"open"[..], Some(5)));
    assert_eq!(next_word(b"open f RW", 5), (&b"f"[..], Some(7)));
    assert_eq!(next_word(b"open f RW", 7), (&b"RW"[..], None));
    assert_eq!(next_word(b"a  b", 2), (&b""[..], Some(3)));
    assert_eq!(next_word(b"a ", 2), (&b""[..], None));
    assert_eq!(next_word(b"", 0), (&b""[..], None));
}

#[test]
fn numbers_are_plain_decimal() {
    assert_eq!(parse_number(b"0", 10), Some(0));
    assert_eq!(parse_number(b"007", 10), Some(7));
    assert_eq!(parse_number(b"+5", 10), Some(5));
    assert_eq!(parse_number(b"10", 10), Some(10));
    assert_eq!(parse_number(b"11", 10), None);
    assert_eq!(parse_number(b"", 10), None);
    assert_eq!(parse_number(b"+", 10), None);
    assert_eq!(parse_number(b"++5", 10), None);
    assert_eq!(parse_number(b"-5", 10), None);
    assert_eq!(parse_number(b"5 ", 10), None);
    assert_eq!(parse_number(b"1_0", 100), None);
    assert_eq!(parse_number(b"4294967295", u32::MAX as u64), Some(4294967295));
    assert_eq!(parse_number(b"4294967296", u32::MAX as u64), None);
    assert_eq!(parse_number(b"18446744073709551615", u64::MAX), Some(u64::MAX));
    assert_eq!(parse_number(b"18446744073709551616", u64::MAX), None);
    assert_eq!(parse_number(b"99999999999999999999999", u64::MAX), None);
    assert_eq!(parse_number(b"9", 3), None);
}

#[test]
fn commands_without_arguments() {
    assert_eq!(show(parse_command(b"ls")), "Ls");
    assert_eq!(show(parse_command(b"ls -l")), "Ls");
    assert_eq!(show(parse_command(b"rand")), "Rand");
    assert_eq!(show(parse_command(b"exit")), "Exit");
    assert_eq!(show(parse_command(b"fs_stat")), "FsStat");
    assert_eq!(show(parse_command(b"")), "Unknown");
    assert_eq!(show(parse_command(b" ls")), "Unknown");
    assert_eq!(show(parse_command(b"LS")), "Unknown");
    assert_eq!(show(parse_command(b"lsx")), "Unknown");
}

#[test]
fn open_reads_name_and_mode() {
    match parse_command(b"open f") {
        Command::Open { name, mode } => {
            assert_eq!(name, b"f");
            assert_eq!(mode, FileMode::RW);
        }
        other => panic!("{:?}", other),
    }
    match parse_command(b"open f MustExist") {
        Command::Open { name, mode } => {
            assert_eq!(name, b"f");
            assert_eq!(mode, FileMode::MustExist);
        }
        other => panic!("{:?}", other),
    }
    match parse_command(b"open f what") {
        Command::Open { mode, .. } => assert_eq!(mode, FileMode::RW),
        other => panic!("{:?}", other),
    }
    match parse_command(b"open  f") {
        Command::Open { name, mode } => {
            assert_eq!(name, b"");
            assert_eq!(mode, FileMode::RW);
        }
        other => panic!("{:?}", other),
    }
    assert_eq!(show(parse_command(b"open")), "Usage(Open)");
    assert_eq!(show(parse_command(b"open \xff")), "Usage(Open)");
}

#[test]
fn directory_commands_read_a_name() {
    match parse_command(b"mkdir docs") {
        Command::Mkdir { name } => assert_eq!(name, b"docs"),
        other => panic!("{:?}", other),
    }
    match parse_command(b"rmdir docs now") {
        Command::Rmdir { name } => assert_eq!(name, b"docs"),
        other => panic!("{:?}", other),
    }
    match parse_command("mkdir gr\u{fc}n".as_bytes()) {
        Command::Mkdir { name } => assert_eq!(name, "gr\u{fc}n".as_bytes()),
        other => panic!("{:?}", other),
    }
    assert_eq!(show(parse_command(b"mkdir")), "Usage(Mkdir)");
    assert_eq!(show(parse_command(b"rmdir")), "Usage(Rmdir)");
    assert_eq!(show(parse_command(b"mkdir \xc3")), "Usage(Mkdir)");
    match parse_command(b"cd docs") {
        Command::Cd { name } => assert_eq!(name, Some(&b"docs"[..])),
        other => panic!("{:?}", other),
    }
    match parse_command(b"cd") {
        Command::Cd { name } => assert_eq!(name, None),
        other => panic!("{:?}", other),
    }
    match parse_command(b"cd \xff\xfe") {
        Command::Cd { name } => assert_eq!(name, None),
        other => panic!("{:?}", other),
    }
}

#[test]
fn file_commands_read_numbers() {
    assert_eq!(show(parse_command(b"fread 3")), "Fread { fd: 3, len: 512 }");
    assert_eq!(show(parse_command(b"fread 3 100")), "Fread { fd: 3, len: 100 }");
    assert_eq!(show(parse_command(b"fread 3 x")), "Fread { fd: 3, len: 512 }");
    assert_eq!(show(parse_command(b"fread")), "Usage(Fread)");
    assert_eq!(show(parse_command(b"fread x 100")), "Usage(Fread)");
    assert_eq!(show(parse_command(b"fread 4294967296")), "Usage(Fread)");
    assert_eq!(show(parse_command(b"fwriterand 0 1000")), "Fwriterand { fd: 0, len: 1000 }");
    assert_eq!(show(parse_command(b"fwriterand 0")), "Fwriterand { fd: 0, len: 512 }");
    assert_eq!(show(parse_command(b"fwriterand")), "Usage(Fwriterand)");
    assert_eq!(show(parse_command(b"fclose 15")), "Fclose { fd: 15 }");
    assert_eq!(show(parse_command(b"fclose -1")), "Usage(Fclose)");
    assert_eq!(show(parse_command(b"fseek 2 700")), "Fseek { fd: 2, pos: 700 }");
    assert_eq!(show(parse_command(b"fseek 2")), "Fseek { fd: 2, pos: 0 }");
    assert_eq!(show(parse_command(b"fseek 2 4294967296")), "Fseek { fd: 2, pos: 0 }");
    assert_eq!(show(parse_command(b"fseek")), "Usage(Fseek)");
    assert_eq!(Topic::Fseek, Topic::Fseek);
}

#[test]
fn chunks_have_512_bytes_at_most() {
    assert_eq!(next_chunk(0), 0);
    assert_eq!(next_chunk(511), 511);
    assert_eq!(next_chunk(512), 512);
    assert_eq!(next_chunk(513), 512);
    assert_eq!(next_chunk(usize::MAX), 512);
}

#[test]
fn reading_goes_on_until_all_is_read_or_the_file_ends() {
    assert_eq!(after_read(1000, Ok(512)), Progress::Go { left: 488 });
    assert_eq!(after_read(488, Ok(488)), Progress::Done);
    assert_eq!(after_read(488, Ok(100)), Progress::Go { left: 388 });
    assert_eq!(after_read(488, Ok(0)), Progress::Done);
    assert_eq!(after_read(10, Ok(20)), Progress::Done);
    assert_eq!(after_read(10, Err(Error::IsADirectory)), Progress::Failed(Error::IsADirectory));
}

#[test]
fn writing_stops_at_a_short_chunk() {
    assert_eq!(after_write(1000, 512, Ok(512)), Progress::Go { left: 488 });
    assert_eq!(after_write(488, 488, Ok(488)), Progress::Done);
    assert_eq!(after_write(488, 488, Ok(100)), Progress::Short { want: 488, got: 100 });
    assert_eq!(after_write(0, 0, Ok(0)), Progress::Done);
    assert_eq!(after_write(10, 10, Err(Error::NoSpace)), Progress::Failed(Error::NoSpace));
}

#[test]
fn only_exit_ends_the_session() {
    assert!(parse_command(b"exit").ends_session());
    assert!(!parse_command(b"fclose 3").ends_session());
    assert!(!parse_command(b"fclose").ends_session());
    assert!(!parse_command(b"").ends_session());
}
