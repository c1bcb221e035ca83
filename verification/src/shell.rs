//! The command line of the console: a line of bytes read as a command and
//! its arguments.

use vstd::prelude::*;
use crate::error::Error;
use crate::fs::{mode_of, FileMode};
use crate::layout::same_bytes;

verus! {

/// The blank that separates words.
pub const BLANK: u8 = 32;

/// Bytes that `fread` and `fwriterand` move when no length is given.
pub const DEFAULT_LEN: usize = 512;

/// The index of the first blank of `line` at or behind `from`, or the length
/// of `line` if there is none.
pub open spec fn first_blank(line: Seq<u8>, from: int) -> int
    decreases line.len() - from,
{
    if from < 0 || from >= line.len() {
        line.len() as int
    } else if line[from] == BLANK {
        from
    } else {
        first_blank(line, from + 1)
    }
}

/// The word of `line` that starts at `start`: it ends in front of the next
/// blank. Two blanks in a row hold an empty word between them.
pub open spec fn word_at(line: Seq<u8>, start: int) -> Seq<u8> {
    line.subrange(start, first_blank(line, start))
}

/// Where the word behind the one that starts at `start` starts, if a blank
/// ends that word.
pub open spec fn next_start(line: Seq<u8>, start: int) -> Option<int> {
    if first_blank(line, start) < line.len() {
        Some(first_blank(line, start) + 1)
    } else {
        None
    }
}

/// The first three words of a line: the command and up to two arguments.
pub struct Words {
    pub command: Seq<u8>,
    pub first: Option<Seq<u8>>,
    pub second: Option<Seq<u8>>,
}

/// The first three words of `line`.
pub open spec fn words_of(line: Seq<u8>) -> Words {
    let s1 = next_start(line, 0);
    let s2 = match s1 {
        Some(s) => next_start(line, s),
        None => None,
    };
    Words {
        command: word_at(line, 0),
        first: match s1 {
            Some(s) => Some(word_at(line, s)),
            None => None,
        },
        second: match s2 {
            Some(s) => Some(word_at(line, s)),
            None => None,
        },
    }
}

/// The number that decimal digits spell.
pub open spec fn decimal(digits: Seq<u8>) -> nat
    decreases digits.len(),
{
    if digits.len() == 0 {
        0
    } else {
        decimal(digits.drop_last()) * 10 + (digits.last() - 48) as nat
    }
}

/// All bytes are decimal digits.
pub open spec fn all_digits(word: Seq<u8>) -> bool {
    forall|i: int| 0 <= i < word.len() ==> 48 <= #[trigger] word[i] <= 57
}

/// The number that `word` spells, if it spells one of at most `max`: an
/// optional plus sign and then digits, at least one, and nothing else.
pub open spec fn number_of(word: Seq<u8>, max: nat) -> Option<nat> {
    let digits = if word.len() > 1 && word[0] == 43 {
        word.skip(1)
    } else {
        word
    };
    if digits.len() > 0 && all_digits(digits) && decimal(digits) <= max {
        Some(decimal(digits))
    } else {
        None
    }
}

/// A number does not shrink when a digit is appended.
pub proof fn lemma_decimal_grows(digits: Seq<u8>, n: int)
    requires
        0 <= n <= digits.len(),
        all_digits(digits),
    ensures
        decimal(digits.take(n)) <= decimal(digits),
    decreases digits.len() - n,
{
    if n < digits.len() {
        assert(digits.take(n + 1).drop_last() =~= digits.take(n));
        assert(digits.take(n + 1).last() == digits[n]);
        lemma_decimal_grows(digits, n + 1);
    } else {
        assert(digits.take(n) =~= digits);
    }
}

/// Reads the number that `word` spells, if it is at most `max`.
#[verifier::loop_isolation(false)]
pub fn parse_number(word: &[u8], max: u64) -> (r: Option<u64>)
    ensures
        r == match number_of(word@, max as nat) {
            Some(v) => Some(v as u64),
            None => None::<u64>,
        },
{
    let n: usize = word.len();
    let from: usize = if n > 1 && word[0] == 43 {
        1
    } else {
        0
    };
    let ghost digits = word@.skip(from as int);
    proof {
        if from == 0 {
            assert(digits =~= word@);
        }
    }
    if from == n {
        return None;
    }
    let mut value: u64 = 0;
    let mut i: usize = from;
    proof {
        assert(digits.take(0) =~= Seq::<u8>::empty());
    }
    while i < n
        invariant
            from <= i <= n,
            n == word@.len(),
            digits == word@.skip(from as int),
            all_digits(digits.take(i - from)),
            value == decimal(digits.take(i - from)),
            value <= max,
        decreases n - i,
    {
        let c: u8 = word[i];
        proof {
            assert(digits[i - from] == c);
            assert(digits.take(i - from + 1).drop_last() =~= digits.take(i - from));
            assert(digits.take(i - from + 1).last() == c);
        }
        if c < 48 || c > 57 {
            proof {
                assert(!all_digits(digits));
            }
            return None;
        }
        let d: u64 = (c - 48) as u64;
        if d > max || value > (max - d) / 10 {
            proof {
                let longer = digits.take(i - from + 1);
                assert(decimal(longer) == value * 10 + d);
                assert(decimal(longer) > max);
                if all_digits(digits) {
                    lemma_decimal_grows(digits, i - from + 1);
                }
            }
            return None;
        }
        value = value * 10 + d;
        proof {
            let longer = digits.take(i - from + 1);
            assert forall|j: int| 0 <= j < longer.len() implies 48 <= #[trigger] longer[j] <= 57 by {
                if j < i - from {
                    assert(digits.take(i - from)[j] == longer[j]);
                }
            }
        }
        i += 1;
    }
    proof {
        assert(digits.take(n - from) =~= digits);
    }
    Some(value)
}

/// `core::str::from_utf8`: it succeeds on the byte sequences that are
/// well-formed UTF-8, and on no others.
#[verifier::external_body]
fn is_utf8(bytes: &[u8]) -> (r: bool)
    ensures
        r == vstd::utf8::valid_utf8(bytes@),
{
    core::str::from_utf8(bytes).is_ok()
}

/// The usage notes that the shell can print.
#[derive(Clone, Copy, Debug, PartialEq, Eq, Structural)]
pub enum Topic {
    Open,
    Mkdir,
    Rmdir,
    Fread,
    Fwriterand,
    Fclose,
    Fseek,
}

/// A command as the contracts see it.
#[allow(inconsistent_fields)]
pub enum CommandView {
    Ls,
    Open { name: Seq<u8>, mode: FileMode },
    Mkdir { name: Seq<u8> },
    Rmdir { name: Seq<u8> },
    Cd { name: Option<Seq<u8>> },
    Rand,
    Fread { fd: u32, len: usize },
    Fwriterand { fd: u32, len: usize },
    Fclose { fd: u32 },
    Fseek { fd: u32, pos: u32 },
    Exit,
    FsStat,
    Usage(Topic),
    Unknown,
}

/// A command of the shell, with its arguments read.
#[allow(inconsistent_fields)]
#[derive(Clone, Copy, Debug)]
pub enum Command<'a> {
    /// Lists the current directory.
    Ls,
    /// Opens a file, or creates it.
    Open { name: &'a [u8], mode: FileMode },
    /// Makes a directory.
    Mkdir { name: &'a [u8] },
    /// Removes an empty directory.
    Rmdir { name: &'a [u8] },
    /// Changes to a directory, or to the root without a name.
    Cd { name: Option<&'a [u8]> },
    /// Prints random bytes.
    Rand,
    /// Reads from an open file.
    Fread { fd: u32, len: usize },
    /// Writes random bytes to an open file.
    Fwriterand { fd: u32, len: usize },
    /// Closes a handle.
    Fclose { fd: u32 },
    /// Sets the offset of a handle.
    Fseek { fd: u32, pos: u32 },
    /// Flushes and leaves.
    Exit,
    /// Prints the block counts.
    FsStat,
    /// A command whose argument is missing or cannot be read.
    Usage(Topic),
    /// No command that the shell knows.
    Unknown,
}

impl<'a> View for Command<'a> {
    type V = CommandView;

    open spec fn view(&self) -> CommandView {
        match *self {
            Command::Ls => CommandView::Ls,
            Command::Open { name, mode } => CommandView::Open { name: name@, mode },
            Command::Mkdir { name } => CommandView::Mkdir { name: name@ },
            Command::Rmdir { name } => CommandView::Rmdir { name: name@ },
            Command::Cd { name } => CommandView::Cd {
                name: match name {
                    Some(n) => Some(n@),
                    None => None,
                },
            },
            Command::Rand => CommandView::Rand,
            Command::Fread { fd, len } => CommandView::Fread { fd, len },
            Command::Fwriterand { fd, len } => CommandView::Fwriterand { fd, len },
            Command::Fclose { fd } => CommandView::Fclose { fd },
            Command::Fseek { fd, pos } => CommandView::Fseek { fd, pos },
            Command::Exit => CommandView::Exit,
            Command::FsStat => CommandView::FsStat,
            Command::Usage(t) => CommandView::Usage(t),
            Command::Unknown => CommandView::Unknown,
        }
    }
}

/// The names of the commands.
pub open spec fn word_ls() -> Seq<u8> {
    seq![108u8, 115u8]
}

pub open spec fn word_open() -> Seq<u8> {
    seq![111u8, 112u8, 101u8, 110u8]
}

pub open spec fn word_mkdir() -> Seq<u8> {
    seq![109u8, 107u8, 100u8, 105u8, 114u8]
}

pub open spec fn word_rmdir() -> Seq<u8> {
    seq![114u8, 109u8, 100u8, 105u8, 114u8]
}

pub open spec fn word_cd() -> Seq<u8> {
    seq![99u8, 100u8]
}

pub open spec fn word_rand() -> Seq<u8> {
    seq![114u8, 97u8, 110u8, 100u8]
}

pub open spec fn word_fread() -> Seq<u8> {
    seq![102u8, 114u8, 101u8, 97u8, 100u8]
}

pub open spec fn word_fwriterand() -> Seq<u8> {
    seq![102u8, 119u8, 114u8, 105u8, 116u8, 101u8, 114u8, 97u8, 110u8, 100u8]
}

pub open spec fn word_fclose() -> Seq<u8> {
    seq![102u8, 99u8, 108u8, 111u8, 115u8, 101u8]
}

pub open spec fn word_fseek() -> Seq<u8> {
    seq![102u8, 115u8, 101u8, 101u8, 107u8]
}

pub open spec fn word_exit() -> Seq<u8> {
    seq![101u8, 120u8, 105u8, 116u8]
}

pub open spec fn word_fs_stat() -> Seq<u8> {
    seq![102u8, 115u8, 95u8, 115u8, 116u8, 97u8, 116u8]
}

/// An argument that is there and is well-formed UTF-8.
pub open spec fn text_of(word: Option<Seq<u8>>) -> Option<Seq<u8>> {
    match word {
        Some(w) => if vstd::utf8::valid_utf8(w) {
            Some(w)
        } else {
            None
        },
        None => None,
    }
}

/// The number that an argument spells, if it is there and spells one.
pub open spec fn count_of(word: Option<Seq<u8>>, max: nat) -> Option<nat> {
    match word {
        Some(w) => number_of(w, max),
        None => None,
    }
}

/// The command that the words spell. A name must be well-formed UTF-8, and
/// a descriptor a number that fits 32 bits; without them the command
/// becomes its usage note. A mode that is missing or unknown is `RW`, a
/// length `DEFAULT_LEN`, an offset zero. `cd` without a name leads to the
/// root. Words behind the arguments are ignored.
pub open spec fn command_of(w: Words) -> CommandView {
    let name = text_of(w.first);
    let fd = count_of(w.first, u32::MAX as nat);
    let len = match count_of(w.second, usize::MAX as nat) {
        Some(n) => n as usize,
        None => DEFAULT_LEN,
    };
    if w.command == word_ls() {
        CommandView::Ls
    } else if w.command == word_open() {
        match name {
            Some(name) => CommandView::Open {
                name,
                mode: match w.second {
                    Some(m) => match mode_of(m) {
                        Some(mode) => mode,
                        None => FileMode::RW,
                    },
                    None => FileMode::RW,
                },
            },
            None => CommandView::Usage(Topic::Open),
        }
    } else if w.command == word_mkdir() {
        match name {
            Some(name) => CommandView::Mkdir { name },
            None => CommandView::Usage(Topic::Mkdir),
        }
    } else if w.command == word_rmdir() {
        match name {
            Some(name) => CommandView::Rmdir { name },
            None => CommandView::Usage(Topic::Rmdir),
        }
    } else if w.command == word_cd() {
        CommandView::Cd { name }
    } else if w.command == word_rand() {
        CommandView::Rand
    } else if w.command == word_fread() {
        match fd {
            Some(fd) => CommandView::Fread { fd: fd as u32, len },
            None => CommandView::Usage(Topic::Fread),
        }
    } else if w.command == word_fwriterand() {
        match fd {
            Some(fd) => CommandView::Fwriterand { fd: fd as u32, len },
            None => CommandView::Usage(Topic::Fwriterand),
        }
    } else if w.command == word_fclose() {
        match fd {
            Some(fd) => CommandView::Fclose { fd: fd as u32 },
            None => CommandView::Usage(Topic::Fclose),
        }
    } else if w.command == word_fseek() {
        match fd {
            Some(fd) => CommandView::Fseek {
                fd: fd as u32,
                pos: match count_of(w.second, u32::MAX as nat) {
                    Some(n) => n as u32,
                    None => 0,
                },
            },
            None => CommandView::Usage(Topic::Fseek),
        }
    } else if w.command == word_exit() {
        CommandView::Exit
    } else if w.command == word_fs_stat() {
        CommandView::FsStat
    } else {
        CommandView::Unknown
    }
}

/// The word of `line` that starts at `start`, and where the next word
/// starts.
pub fn next_word<'a>(line: &'a [u8], start: usize) -> (r: (&'a [u8], Option<usize>))
    requires
        start <= line@.len(),
    ensures
        r.0@ == word_at(line@, start as int),
        match r.1 {
            Some(s) => next_start(line@, start as int) == Some(s as int) && s <= line@.len(),
            None => next_start(line@, start as int) is None,
        },
{
    let n: usize = line.len();
    let mut end: usize = start;
    while end < n && line[end] != BLANK
        invariant
            start <= end <= n,
            n == line@.len(),
            first_blank(line@, start as int) == first_blank(line@, end as int),
        decreases n - end,
    {
        end += 1;
    }
    let word = &line[start..end];
    if end < n {
        (word, Some(end + 1))
    } else {
        (word, None)
    }
}

/// Reads an argument that must be well-formed UTF-8.
fn text<'a>(word: Option<&'a [u8]>) -> (r: Option<&'a [u8]>)
    ensures
        match r {
            Some(t) => text_of(option_view(word)) == Some(t@),
            None => text_of(option_view(word)) is None,
        },
{
    match word {
        Some(w) => if is_utf8(w) {
            Some(w)
        } else {
            None
        },
        None => None,
    }
}

/// Reads an argument that must spell a number of at most `max`.
fn count(word: Option<&[u8]>, max: u64) -> (r: Option<u64>)
    ensures
        r == match count_of(option_view(word), max as nat) {
            Some(v) => Some(v as u64),
            None => None::<u64>,
        },
{
    match word {
        Some(w) => parse_number(w, max),
        None => None,
    }
}

/// An argument as a sequence of bytes.
pub open spec fn option_view(word: Option<&[u8]>) -> Option<Seq<u8>> {
    match word {
        Some(w) => Some(w@),
        None => None,
    }
}

/// Reads a line as a command of the shell.
pub fn parse_command<'a>(line: &'a [u8]) -> (r: Command<'a>)
    ensures
        r@ == command_of(words_of(line@)),
{
    let (command, s1) = next_word(line, 0);
    let (first, s2): (Option<&[u8]>, Option<usize>) = match s1 {
        Some(s) => {
            let (w, next) = next_word(line, s);
            (Some(w), next)
        },
        None => (None, None),
    };
    let second: Option<&[u8]> = match s2 {
        Some(s) => Some(next_word(line, s).0),
        None => None,
    };
    proof {
        let w = words_of(line@);
        assert(w.command == command@);
        assert(w.first == option_view(first));
        assert(w.second == option_view(second));
    }
    let ls: [u8; 2] = [108, 115];
    let open: [u8; 4] = [111, 112, 101, 110];
    let mkdir: [u8; 5] = [109, 107, 100, 105, 114];
    let rmdir: [u8; 5] = [114, 109, 100, 105, 114];
    let cd: [u8; 2] = [99, 100];
    let rand: [u8; 4] = [114, 97, 110, 100];
    let fread: [u8; 5] = [102, 114, 101, 97, 100];
    let fwriterand: [u8; 10] = [102, 119, 114, 105, 116, 101, 114, 97, 110, 100];
    let fclose: [u8; 6] = [102, 99, 108, 111, 115, 101];
    let fseek: [u8; 5] = [102, 115, 101, 101, 107];
    let exit: [u8; 4] = [101, 120, 105, 116];
    let fs_stat: [u8; 7] = [102, 115, 95, 115, 116, 97, 116];
    proof {
        assert(ls@ =~= word_ls());
        assert(open@ =~= word_open());
        assert(mkdir@ =~= word_mkdir());
        assert(rmdir@ =~= word_rmdir());
        assert(cd@ =~= word_cd());
        assert(rand@ =~= word_rand());
        assert(fread@ =~= word_fread());
        assert(fwriterand@ =~= word_fwriterand());
        assert(fclose@ =~= word_fclose());
        assert(fseek@ =~= word_fseek());
        assert(exit@ =~= word_exit());
        assert(fs_stat@ =~= word_fs_stat());
    }
    let len: usize = match count(second, usize::MAX as u64) {
        Some(n) => n as usize,
        None => DEFAULT_LEN,
    };
    if same_bytes(command, &ls) {
        Command::Ls
    } else if same_bytes(command, &open) {
        match text(first) {
            Some(name) => {
                let mode = match second {
                    Some(m) => match FileMode::parse(m) {
                        Some(mode) => mode,
                        None => FileMode::RW,
                    },
                    None => FileMode::RW,
                };
                Command::Open { name, mode }
            },
            None => Command::Usage(Topic::Open),
        }
    } else if same_bytes(command, &mkdir) {
        match text(first) {
            Some(name) => Command::Mkdir { name },
            None => Command::Usage(Topic::Mkdir),
        }
    } else if same_bytes(command, &rmdir) {
        match text(first) {
            Some(name) => Command::Rmdir { name },
            None => Command::Usage(Topic::Rmdir),
        }
    } else if same_bytes(command, &cd) {
        Command::Cd { name: text(first) }
    } else if same_bytes(command, &rand) {
        Command::Rand
    } else if same_bytes(command, &fread) {
        match count(first, u32::MAX as u64) {
            Some(fd) => Command::Fread { fd: fd as u32, len },
            None => Command::Usage(Topic::Fread),
        }
    } else if same_bytes(command, &fwriterand) {
        match count(first, u32::MAX as u64) {
            Some(fd) => Command::Fwriterand { fd: fd as u32, len },
            None => Command::Usage(Topic::Fwriterand),
        }
    } else if same_bytes(command, &fclose) {
        match count(first, u32::MAX as u64) {
            Some(fd) => Command::Fclose { fd: fd as u32 },
            None => Command::Usage(Topic::Fclose),
        }
    } else if same_bytes(command, &fseek) {
        match count(first, u32::MAX as u64) {
            Some(fd) => {
                let pos: u32 = match count(second, u32::MAX as u64) {
                    Some(n) => n as u32,
                    None => 0,
                };
                Command::Fseek { fd: fd as u32, pos }
            },
            None => Command::Usage(Topic::Fseek),
        }
    } else if same_bytes(command, &exit) {
        Command::Exit
    } else if same_bytes(command, &fs_stat) {
        Command::FsStat
    } else {
        Command::Unknown
    }
}

/// What the shell does next while a command moves bytes chunk by chunk.
#[derive(Clone, Copy, Debug, PartialEq, Eq, Structural)]
pub enum Progress {
    /// Moves the next chunk; `left` bytes are still to move.
    Go { left: usize },
    /// All is moved, or the file has ended.
    Done,
    /// A chunk was written in part: the command stops and says so.
    Short { want: usize, got: usize },
    /// The filesystem failed: the command stops and shows the error.
    Failed(Error),
}

/// The length of the next chunk when `left` bytes are still to move: a
/// chunk has `DEFAULT_LEN` bytes at most.
pub open spec fn chunk_of(left: usize) -> usize {
    if left < DEFAULT_LEN {
        left
    } else {
        DEFAULT_LEN
    }
}

/// How `fread` goes on after one chunk: an error stops it, a read of no
/// bytes is the end of the file, and what was read comes off what is left.
pub open spec fn step_of_read(left: usize, outcome: Result<usize, Error>) -> Progress {
    match outcome {
        Err(e) => Progress::Failed(e),
        Ok(got) => if got == 0 || got >= left {
            Progress::Done
        } else {
            Progress::Go { left: (left - got) as usize }
        },
    }
}

/// How `fwriterand` goes on after one chunk of `want` bytes: an error stops
/// it, so does a chunk written in part, and a whole chunk comes off what is
/// left.
pub open spec fn step_of_write(left: usize, want: usize, outcome: Result<usize, Error>) -> Progress {
    match outcome {
        Err(e) => Progress::Failed(e),
        Ok(got) => if got != want {
            Progress::Short { want, got }
        } else if want == 0 || want >= left {
            Progress::Done
        } else {
            Progress::Go { left: (left - want) as usize }
        },
    }
}

/// The length of the next chunk when `left` bytes are still to move.
pub fn next_chunk(left: usize) -> (r: usize)
    ensures
        r == chunk_of(left),
{
    if left < DEFAULT_LEN {
        left
    } else {
        DEFAULT_LEN
    }
}

/// How `fread` goes on after a chunk with the given outcome.
pub fn after_read(left: usize, outcome: Result<usize, Error>) -> (r: Progress)
    ensures
        r == step_of_read(left, outcome),
{
    match outcome {
        Err(e) => Progress::Failed(e),
        Ok(got) => if got == 0 || got >= left {
            Progress::Done
        } else {
            Progress::Go { left: left - got }
        },
    }
}

/// How `fwriterand` goes on after a chunk of `want` bytes with the given
/// outcome.
pub fn after_write(left: usize, want: usize, outcome: Result<usize, Error>) -> (r: Progress)
    ensures
        r == step_of_write(left, want, outcome),
{
    match outcome {
        Err(e) => Progress::Failed(e),
        Ok(got) => if got != want {
            Progress::Short { want, got }
        } else if want == 0 || want >= left {
            Progress::Done
        } else {
            Progress::Go { left: left - want }
        },
    }
}

impl<'a> Command<'a> {
    /// Whether the shell leaves its loop after this command: only `exit`
    /// ends the session, whatever a command's outcome was.
    pub fn ends_session(&self) -> (r: bool)
        ensures
            r == (self@ is Exit),
    {
        match self {
            Command::Exit => true,
            _ => false,
        }
    }
}

} // verus!
