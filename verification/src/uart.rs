//! The console: bytes queued for the wire, and the editing of a line out of
//! the bytes that the wire delivers.

use vstd::prelude::*;
use vstd::string::StringSliceAdditionalSpecFns;

verus! {

/// Carriage return.
pub const CR: u8 = 13;

/// Line feed.
pub const LF: u8 = 10;

/// The byte that the delete key sends.
pub const DEL: u8 = 127;

/// The bytes that move the cursor one column to the left.
pub open spec fn back_seq() -> Seq<u8> {
    seq![0x1bu8, 0x5bu8, 0x44u8]
}

/// The bytes that wipe the character left of the cursor: back, a blank, and
/// back again.
pub open spec fn erase_seq() -> Seq<u8> {
    back_seq().push(0x20u8) + back_seq()
}

/// A line that is being read, as the contracts see it.
pub struct LineView {
    /// The buffer that the line is read into, all of it.
    pub buf: Seq<u8>,
    /// The length of the line so far; the line is the front of the buffer.
    pub count: nat,
    /// All bytes queued for the wire so far.
    pub sent: Seq<u8>,
    /// Whether the line is complete.
    pub done: bool,
}

impl LineView {
    /// The bytes of the line so far.
    pub open spec fn line(self) -> Seq<u8> {
        self.buf.take(self.count as int)
    }
}

/// The line `s`, complete: with echo a line feed is sent.
pub open spec fn finish(echo: bool, s: LineView) -> LineView {
    LineView {
        sent: if echo {
            s.sent.push(LF)
        } else {
            s.sent
        },
        done: true,
        ..s
    }
}

/// A line at its start in the buffer `buf`. A line that can hold nothing is
/// complete at once.
pub open spec fn start(buf: Seq<u8>, echo: bool, sent: Seq<u8>) -> LineView {
    let s = LineView { buf, count: 0, sent, done: false };
    if buf.len() == 0 {
        finish(echo, s)
    } else {
        s
    }
}

/// What one received byte does to a line. A carriage return or a line feed
/// completes it. The delete byte takes the last byte off, if there is one,
/// puts a zero in its place and wipes it on the screen. Any other byte is
/// stored behind the line, is echoed if echo is on, and completes the line
/// when it fills the buffer. No other byte of the buffer changes, and a
/// complete line takes nothing.
pub open spec fn key(echo: bool, s: LineView, byte: u8) -> LineView {
    if s.done {
        s
    } else if byte == CR || byte == LF {
        finish(echo, s)
    } else if byte == DEL {
        if s.count > 0 {
            LineView {
                buf: s.buf.update(s.count - 1, 0u8),
                count: (s.count - 1) as nat,
                sent: s.sent + erase_seq(),
                done: false,
            }
        } else {
            s
        }
    } else {
        let t = LineView {
            buf: s.buf.update(s.count as int, byte),
            count: s.count + 1,
            sent: if echo {
                s.sent.push(byte)
            } else {
                s.sent
            },
            done: false,
        };
        if t.count >= t.buf.len() {
            finish(echo, t)
        } else {
            t
        }
    }
}

/// What the bytes of `input` from `i` on make of the line `s`, and the index
/// behind the last byte taken. The end of the input completes the line.
pub open spec fn line_end(echo: bool, s: LineView, input: Seq<u8>, i: int) -> (LineView, int)
    decreases input.len() - i,
{
    if s.done || i < 0 {
        (s, i)
    } else if i >= input.len() {
        (finish(echo, s), i)
    } else {
        line_end(echo, key(echo, s, input[i]), input, i + 1)
    }
}

/// Reading a line changes the buffer only where the line has been: a byte
/// at or behind the greatest length that the line can reach, the length of
/// the input, keeps its value.
pub proof fn lemma_line_leaves_rest(echo: bool, s: LineView, input: Seq<u8>, i: int, k: int)
    requires
        0 <= i <= input.len(),
        s.count <= s.buf.len(),
        s.count + (input.len() - i) <= k < s.buf.len(),
    ensures
        line_end(echo, s, input, i).0.buf.len() == s.buf.len(),
        line_end(echo, s, input, i).0.buf[k] == s.buf[k],
        line_end(echo, s, input, i).0.count <= s.count + (input.len() - i),
    decreases input.len() - i,
{
    if !s.done && i < input.len() {
        lemma_line_leaves_rest(echo, key(echo, s, input[i]), input, i + 1, k);
    }
}

/// The console. What is written is queued until the wire takes it.
pub struct UART {
    tx: Vec<u8>,
}

/// The progress of reading one line into a buffer.
pub struct LineEditor {
    count: usize,
    cap: usize,
    echo: bool,
    done: bool,
}

impl LineEditor {
    /// Bytes of the line so far.
    pub closed spec fn count(&self) -> nat {
        self.count as nat
    }

    /// Bytes that the line can hold.
    pub closed spec fn cap(&self) -> nat {
        self.cap as nat
    }

    /// Whether received bytes are echoed.
    pub closed spec fn echo(&self) -> bool {
        self.echo
    }

    /// Whether the line is complete.
    pub closed spec fn done(&self) -> bool {
        self.done
    }

    /// The line fits its buffer, and a full line is complete.
    pub closed spec fn wf(&self) -> bool {
        &&& self.count <= self.cap
        &&& self.count == self.cap ==> self.done
    }

    /// The line as the contracts see it, given the buffer that it is read
    /// into and what the console has queued.
    pub open spec fn view_with(&self, buf: Seq<u8>, sent: Seq<u8>) -> LineView {
        LineView { buf, count: self.count(), sent, done: self.done() }
    }

    /// Whether the line is complete.
    pub fn is_done(&self) -> (r: bool)
        ensures
            r == self.done(),
    {
        self.done
    }

    /// Bytes of the line so far.
    pub fn len(&self) -> (r: usize)
        ensures
            r == self.count(),
    {
        self.count
    }
}

impl UART {
    /// The bytes queued for the wire, oldest first.
    pub closed spec fn sent(&self) -> Seq<u8> {
        self.tx@
    }

    /// A console with nothing queued.
    pub fn new() -> (u: UART)
        ensures
            u.sent() == Seq::<u8>::empty(),
    {
        UART { tx: Vec::new() }
    }

    /// Queues one byte.
    pub fn write_byte(&mut self, byte: u8)
        ensures
            final(self).sent() == old(self).sent().push(byte),
    {
        self.tx.push(byte);
    }

    /// Queues the bytes of `s` in order.
    pub fn write_bytes(&mut self, s: &[u8])
        ensures
            final(self).sent() == old(self).sent() + s@,
    {
        let n: usize = s.len();
        let mut i: usize = 0;
        proof {
            assert(self.sent() =~= old(self).sent() + s@.take(0));
        }
        while i < n
            invariant
                i <= n,
                n == s@.len(),
                self.sent() == old(self).sent() + s@.take(i as int),
            decreases n - i,
        {
            self.write_byte(s[i]);
            proof {
                assert(s@.take(i + 1) =~= s@.take(i as int).push(s@[i as int]));
                assert(self.sent() =~= old(self).sent() + s@.take(i + 1));
            }
            i += 1;
        }
        proof {
            assert(s@.take(n as int) =~= s@);
        }
    }

    /// Queues the bytes of the text `s`.
    pub fn write_str(&mut self, s: &str)
        ensures
            final(self).sent() == old(self).sent() + s.spec_bytes(),
    {
        self.write_bytes(s.as_bytes());
    }

    /// Moves the cursor one column to the left.
    fn move_back(&mut self)
        ensures
            final(self).sent() == old(self).sent() + back_seq(),
    {
        self.write_byte(0x1b);
        self.write_byte(0x5b);
        self.write_byte(0x44);
        proof {
            assert(self.sent() =~= old(self).sent() + back_seq());
        }
    }

    /// Hands over what is queued, for the wire, and empties the queue.
    pub fn take_output(&mut self) -> (out: Vec<u8>)
        ensures
            out@ == old(self).sent(),
            final(self).sent() == Seq::<u8>::empty(),
    {
        let mut out: Vec<u8> = Vec::new();
        core::mem::swap(&mut out, &mut self.tx);
        out
    }

    /// Starts a line of at most `cap` bytes.
    pub fn begin_line(&mut self, cap: usize, echo: bool) -> (ed: LineEditor)
        ensures
            ed.wf(),
            ed.cap() == cap,
            ed.echo() == echo,
            ed.count() == 0,
            forall|buf: Seq<u8>|
                buf.len() == cap ==> #[trigger] ed.view_with(buf, final(self).sent()) == start(
                    buf,
                    echo,
                    old(self).sent(),
                ),
    {
        let done: bool = cap == 0;
        if done && echo {
            self.write_byte(LF);
        }
        LineEditor { count: 0, cap, echo, done }
    }

    /// Completes the line where the input has ended.
    pub fn end_line(&mut self, ed: &mut LineEditor)
        requires
            old(ed).wf(),
        ensures
            final(ed).wf(),
            final(ed).cap() == old(ed).cap(),
            final(ed).echo() == old(ed).echo(),
            final(ed).done(),
            forall|buf: Seq<u8>| #[trigger]
                final(ed).view_with(buf, final(self).sent()) == if old(ed).done() {
                    old(ed).view_with(buf, old(self).sent())
                } else {
                    finish(old(ed).echo(), old(ed).view_with(buf, old(self).sent()))
                },
    {
        if !ed.done {
            if ed.echo {
                self.write_byte(LF);
            }
            ed.done = true;
        }
    }

    /// Takes one received byte into the line that is being read into `buf`.
    pub fn accept(&mut self, ed: &mut LineEditor, buf: &mut [u8], byte: u8)
        requires
            old(ed).wf(),
            old(buf)@.len() == old(ed).cap(),
        ensures
            final(ed).wf(),
            final(ed).cap() == old(ed).cap(),
            final(ed).echo() == old(ed).echo(),
            final(buf)@.len() == old(buf)@.len(),
            final(ed).view_with(final(buf)@, final(self).sent()) == key(
                old(ed).echo(),
                old(ed).view_with(old(buf)@, old(self).sent()),
                byte,
            ),
    {
        if ed.done {
            return ;
        }
        if byte == CR || byte == LF {
            if ed.echo {
                self.write_byte(LF);
            }
            ed.done = true;
        } else if byte == DEL {
            if ed.count > 0 {
                ed.count = ed.count - 1;
                buf[ed.count] = 0;
                self.move_back();
                self.write_byte(0x20);
                self.move_back();
                proof {
                    assert(self.sent() =~= old(self).sent() + erase_seq());
                }
            }
        } else {
            if ed.echo {
                self.write_byte(byte);
            }
            buf[ed.count] = byte;
            ed.count = ed.count + 1;
            if ed.count == ed.cap {
                if ed.echo {
                    self.write_byte(LF);
                }
                ed.done = true;
            }
        }
    }

    /// Reads one line out of `input` into `buf`: bytes are taken until one
    /// completes the line or the input ends. Gives the length of the line,
    /// which stands at the front of `buf`, and the number of bytes taken.
    /// Behind the line `buf` holds a zero wherever a byte was deleted and
    /// its old bytes everywhere else.
    pub fn read_line(&mut self, input: &[u8], buf: &mut [u8], echo: bool) -> (r: (usize, usize))
        ensures
            ({
                let (end, used) = line_end(
                    echo,
                    start(old(buf)@, echo, old(self).sent()),
                    input@,
                    0,
                );
                &&& r.0 == end.count
                &&& r.1 == used
                &&& final(buf)@ == end.buf
                &&& final(self).sent() == end.sent
                &&& r.0 <= old(buf)@.len()
                &&& r.1 <= input@.len()
                &&& final(buf)@.len() == old(buf)@.len()
            }),
    {
        let cap: usize = buf.len();
        let n: usize = input.len();
        let ghost first = start(buf@, echo, self.sent());
        let mut ed = self.begin_line(cap, echo);
        let mut i: usize = 0;
        proof {
            assert(ed.view_with(buf@, self.sent()) == first);
        }
        while !ed.is_done() && i < n
            invariant
                i <= n,
                n == input@.len(),
                cap == buf@.len(),
                buf@.len() == old(buf)@.len(),
                ed.wf(),
                ed.cap() == cap,
                ed.echo() == echo,
                first == start(old(buf)@, echo, old(self).sent()),
                line_end(echo, first, input@, 0) == line_end(
                    echo,
                    ed.view_with(buf@, self.sent()),
                    input@,
                    i as int,
                ),
            decreases n - i,
        {
            self.accept(&mut ed, buf, input[i]);
            i += 1;
        }
        let ghost open_line = ed.view_with(buf@, self.sent());
        self.end_line(&mut ed);
        proof {
            let last = ed.view_with(buf@, self.sent());
            if open_line.done {
                assert(last == open_line);
            } else {
                assert(last == finish(echo, open_line));
            }
        }
        (ed.len(), i)
    }
}

} // verus!
