//! The display capability: two primitives supplied by a backend, and the
//! batched sends, clearing and text output derived from them.
use crate::hd44780;
use vstd::prelude::*;

verus! {

/// One byte handed to a backend primitive.
pub enum Byte {
    /// A controller instruction, given to `send_command`.
    Command(u8),
    /// A character code, given to `send_data`.
    Data(u8),
}

/// One call of a backend primitive: the byte it was given and what it returned.
pub struct Attempt<Error> {
    pub byte: Byte,
    pub result: Result<(), Error>,
}

/// The byte shown in place of a character that Latin-1 cannot hold: `?`.
pub const REPLACEMENT_CHAR: u8 = 0x3F;

/// The byte that stands for `c` on the display: its code point where that fits
/// in Latin-1, else `?`.
pub open spec fn latin1_byte(c: char) -> u8 {
    if (c as u32) < 256 {
        (c as u32) as u8
    } else {
        REPLACEMENT_CHAR
    }
}

/// The data bytes that `write` puts on a line of `width` columns for the text `s`.
pub open spec fn line_bytes(s: Seq<char>, width: nat) -> Seq<u8> {
    let n: int = if s.len() <= width { s.len() as int } else { width as int };
    s.take(n).map_values(|c: char| latin1_byte(c))
}

/// `bytes` as command bytes.
pub open spec fn as_commands(bytes: Seq<u8>) -> Seq<Byte> {
    bytes.map_values(|b: u8| Byte::Command(b))
}

/// `bytes` as data bytes.
pub open spec fn as_data(bytes: Seq<u8>) -> Seq<Byte> {
    bytes.map_values(|b: u8| Byte::Data(b))
}

/// The log of sending each of `bytes` in turn, each one accepted.
pub open spec fn accepted<Error>(bytes: Seq<Byte>) -> Seq<Attempt<Error>> {
    bytes.map_values(|b: Byte| Attempt { byte: b, result: Ok(()) })
}

/// `log` and `r` are what a sequential send of `bytes` that stops at the first
/// failure leaves: every byte accepted and `Ok`, or the bytes before the `k`-th
/// accepted, the `k`-th refused with `e`, nothing after it tried, and `Err(e)`.
pub open spec fn batch_outcome<Error>(
    bytes: Seq<Byte>,
    log: Seq<Attempt<Error>>,
    r: Result<(), Error>,
) -> bool {
    match r {
        Ok(()) => log == accepted::<Error>(bytes),
        Err(e) => exists|k: int|
            0 <= k < bytes.len() && log == accepted::<Error>(bytes.take(k)).push(
                (Attempt { byte: bytes[k], result: Err(e) }),
            ),
    }
}

/// `after` is `before` followed by the log of a sequential send of `bytes` that
/// ended with `r`.
pub open spec fn sent_batch<Error>(
    before: Seq<Attempt<Error>>,
    after: Seq<Attempt<Error>>,
    bytes: Seq<Byte>,
    r: Result<(), Error>,
) -> bool {
    &&& before.len() <= after.len()
    &&& after.take(before.len() as int) == before
    &&& batch_outcome(bytes, after.skip(before.len() as int), r)
}

/// Every call recorded in `log` was accepted.
pub open spec fn all_accepted<Error>(log: Seq<Attempt<Error>>) -> bool {
    forall|j: int| 0 <= j < log.len() ==> (#[trigger] log[j]).result is Ok
}

/// Each character of `s` as the byte of its code point.
pub open spec fn latin1_encode(s: Seq<char>) -> Seq<u8> {
    s.map_values(|c: char| (c as u32) as u8)
}

/// Every character of `s` lies in Latin-1.
pub open spec fn is_latin1(s: Seq<char>) -> bool {
    forall|j: int| 0 <= j < s.len() ==> ((#[trigger] s[j]) as u32) < 256
}

/// What a sequential send of `bytes` leaves after `before`: the bytes handed
/// over are a prefix of `bytes`, in order; all of them when it succeeds; and
/// where the backend accepted every one, the send succeeded.
pub proof fn lemma_sent_batch<Error>(
    before: Seq<Attempt<Error>>,
    after: Seq<Attempt<Error>>,
    bytes: Seq<Byte>,
    r: Result<(), Error>,
)
    requires
        sent_batch(before, after, bytes, r),
    ensures
        after.len() <= before.len() + bytes.len(),
        forall|j: int|
            before.len() <= j < after.len() ==> (#[trigger] after[j]).byte == bytes[j
                - before.len()],
        r is Ok ==> after == before + accepted::<Error>(bytes),
        all_accepted(after.skip(before.len() as int)) ==> r is Ok,
{
    let log = after.skip(before.len() as int);
    assert(after =~= before + log);
    match r {
        Ok(()) => {},
        Err(e) => {
            let k = choose|k: int|
                0 <= k < bytes.len() && log == accepted::<Error>(bytes.take(k)).push(
                    (Attempt { byte: bytes[k], result: Err(e) }),
                );
            assert(log[k].result is Err);
        },
    }
}

/// One more byte of a sequential send: where the bytes before the `i`-th were
/// all accepted, an accepted `i`-th byte extends that, and a refused one ends
/// the send with its error.
proof fn lemma_batch_step<Error>(
    start: Seq<Attempt<Error>>,
    bytes: Seq<Byte>,
    i: int,
    a: Attempt<Error>,
)
    requires
        0 <= i < bytes.len(),
        a.byte == bytes[i],
    ensures
        a.result is Ok ==> (start + accepted::<Error>(bytes.take(i))).push(a) == start
            + accepted::<Error>(bytes.take(i + 1)),
        a.result is Err ==> sent_batch(
            start,
            (start + accepted::<Error>(bytes.take(i))).push(a),
            bytes,
            Err(a.result->Err_0),
        ),
{
    let log = (start + accepted::<Error>(bytes.take(i))).push(a);
    if a.result is Ok {
        assert(a.result == Ok::<(), Error>(a.result->Ok_0));
        assert(log =~= start + accepted::<Error>(bytes.take(i + 1)));
    } else {
        assert(log.take(start.len() as int) =~= start);
        assert(log.skip(start.len() as int) =~= accepted::<Error>(bytes.take(i)).push(
            (Attempt { byte: bytes[i], result: Err(a.result->Err_0) }),
        ));
    }
}

/// A sequential send whose bytes were all accepted.
proof fn lemma_batch_done<Error>(start: Seq<Attempt<Error>>, bytes: Seq<Byte>)
    ensures
        sent_batch(start, start + accepted::<Error>(bytes.take(bytes.len() as int)), bytes, Ok(())),
{
    let log = start + accepted::<Error>(bytes.take(bytes.len() as int));
    assert(bytes.take(bytes.len() as int) =~= bytes);
    assert(log.take(start.len() as int) =~= start);
    assert(log.skip(start.len() as int) =~= accepted::<Error>(bytes));
}

/// Generic code for an LCD screen of `WIDTH` columns and `HEIGHT` rows.
/// A backend implements `send_command` and `send_data`; the other operations
/// are built on those two.
pub trait Screen<const WIDTH: usize, const HEIGHT: usize, Error> {
    /// Every call of the two primitives on this screen so far, in order.
    /// A verified backend defines it from a ghost record that it keeps; the
    /// closed default lets a backend written in plain Rust leave it out.
    closed spec fn sent(&self) -> Seq<Attempt<Error>> {
        Seq::empty()
    }

    /// Sends a command byte to the screen.
    fn send_command(&mut self, command: u8) -> (r: Result<(), Error>)
        ensures
            final(self).sent() == old(self).sent().push(
                (Attempt { byte: Byte::Command(command), result: r }),
            ),
    ;

    /// Sends a data byte to the screen.
    fn send_data(&mut self, data: u8) -> (r: Result<(), Error>)
        ensures
            final(self).sent() == old(self).sent().push(
                (Attempt { byte: Byte::Data(data), result: r }),
            ),
    ;

    /// Sends several command bytes, one `send_command` each, in order,
    /// stopping at the first error.
    fn send_commands(&mut self, commands: &[u8]) -> (r: Result<(), Error>)
        ensures
            sent_batch(old(self).sent(), final(self).sent(), as_commands(commands@), r),
            forall|j: int|
                old(self).sent().len() <= j < final(self).sent().len()
                    ==> (#[trigger] final(self).sent()[j]).byte is Command,
            all_accepted(final(self).sent().skip(old(self).sent().len() as int)) ==> r is Ok
                && final(self).sent() == old(self).sent() + accepted::<Error>(as_commands(commands@)),
    {
        let ghost start = self.sent();
        let ghost bytes = as_commands(commands@);
        let mut i: usize = 0;
        while i < commands.len()
            invariant
                0 <= i <= commands@.len(),
                start == old(self).sent(),
                bytes == as_commands(commands@),
                self.sent() == start + accepted::<Error>(bytes.take(i as int)),
            decreases commands@.len() - i,
        {
            let r = self.send_command(commands[i]);
            proof {
                lemma_batch_step(start, bytes, i as int, self.sent().last());
            }
            match r {
                Ok(()) => {},
                Err(e) => {
                    let r = Err(e);
                    proof {
                        lemma_sent_batch(start, self.sent(), bytes, r);
                    }
                    return r;
                },
            }
            i = i + 1;
        }
        proof {
            lemma_batch_done(start, bytes);
            lemma_sent_batch(start, self.sent(), bytes, Ok(()));
        }
        Ok(())
    }

    /// Sends several data bytes, one `send_data` each, in order,
    /// stopping at the first error.
    fn send_data_bytes(&mut self, data: &[u8]) -> (r: Result<(), Error>)
        ensures
            sent_batch(old(self).sent(), final(self).sent(), as_data(data@), r),
            forall|j: int|
                old(self).sent().len() <= j < final(self).sent().len()
                    ==> (#[trigger] final(self).sent()[j]).byte is Data,
            all_accepted(final(self).sent().skip(old(self).sent().len() as int)) ==> r is Ok
                && final(self).sent() == old(self).sent() + accepted::<Error>(as_data(data@)),
    {
        let ghost start = self.sent();
        let ghost bytes = as_data(data@);
        let mut i: usize = 0;
        while i < data.len()
            invariant
                0 <= i <= data@.len(),
                start == old(self).sent(),
                bytes == as_data(data@),
                self.sent() == start + accepted::<Error>(bytes.take(i as int)),
            decreases data@.len() - i,
        {
            let r = self.send_data(data[i]);
            proof {
                lemma_batch_step(start, bytes, i as int, self.sent().last());
            }
            match r {
                Ok(()) => {},
                Err(e) => {
                    let r = Err(e);
                    proof {
                        lemma_sent_batch(start, self.sent(), bytes, r);
                    }
                    return r;
                },
            }
            i = i + 1;
        }
        proof {
            lemma_batch_done(start, bytes);
            lemma_sent_batch(start, self.sent(), bytes, Ok(()));
        }
        Ok(())
    }

    /// Clears the screen.
    fn cls(&mut self) -> (r: Result<(), Error>)
        ensures
            final(self).sent() == old(self).sent().push(
                (Attempt { byte: Byte::Command(hd44780::CLEAR_DISPLAY), result: r }),
            ),
    {
        self.send_command(hd44780::clear_screen())
    }

    /// Prints a string on the current line of the screen: at most `WIDTH`
    /// characters, each one outside Latin-1 shown as `?`. Control characters
    /// are not interpreted.
    fn write(&mut self, s: &str) -> (r: Result<(), Error>)
        ensures
            sent_batch(
                old(self).sent(),
                final(self).sent(),
                as_data(line_bytes(s@, WIDTH as nat)),
                r,
            ),
            forall|j: int|
                old(self).sent().len() <= j < final(self).sent().len()
                    ==> (#[trigger] final(self).sent()[j]).byte is Data,
            s@.len() <= WIDTH && is_latin1(s@) ==> sent_batch(
                old(self).sent(),
                final(self).sent(),
                as_data(latin1_encode(s@)),
                r,
            ),
            s@.len() > WIDTH ==> sent_batch(
                old(self).sent(),
                final(self).sent(),
                as_data(s@.take(WIDTH as int).map_values(|c: char| latin1_byte(c))),
                r,
            ),
            s@.len() > WIDTH && r is Ok ==> final(self).sent().len() == old(self).sent().len()
                + WIDTH,
            forall|j: int|
                0 <= j < final(self).sent().len() - old(self).sent().len() && ((#[trigger] s@[j])
                    as u32) >= 256 ==> final(self).sent()[old(self).sent().len() + j].byte
                    == Byte::Data(REPLACEMENT_CHAR),
            s@.len() == 0 ==> r is Ok && final(self).sent() == old(self).sent(),
    {
        let mut string_buf = [0u8; WIDTH];
        let n: usize = s.unicode_len();
        let mut len: usize = 0;
        while len < WIDTH && len < n
            invariant
                len <= WIDTH,
                len <= n,
                n == s@.len(),
                string_buf@.len() == WIDTH,
                forall|j: int| 0 <= j < len ==> string_buf@[j] == latin1_byte(s@[j]),
            decreases WIDTH - len,
        {
            let c = s.get_char(len);
            let b: u8 = if (c as u32) < 256 {
                (c as u32) as u8
            } else {
                REPLACEMENT_CHAR
            };
            string_buf[len] = b;
            len = len + 1;
        }
        let line = vstd::slice::slice_subrange(string_buf.as_slice(), 0, len);
        let ghost bytes = line_bytes(s@, WIDTH as nat);
        assert(line@ =~= bytes);
        let ghost before = self.sent();
        let r = self.send_data_bytes(line);
        proof {
            lemma_sent_batch(before, self.sent(), as_data(bytes), r);
            if s@.len() <= WIDTH && is_latin1(s@) {
                assert(bytes =~= latin1_encode(s@));
            }
            if s@.len() > WIDTH {
                assert(bytes =~= s@.take(WIDTH as int).map_values(|c: char| latin1_byte(c)));
            }
            if s@.len() == 0 {
                assert(as_data(bytes) =~= Seq::<Byte>::empty());
                assert(accepted::<Error>(as_data(bytes)) =~= Seq::<Attempt<Error>>::empty());
                assert(self.sent() =~= before);
            }
        }
        r
    }
}

} // verus!
