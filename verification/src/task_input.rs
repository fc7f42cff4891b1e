//! A task's input: looked over from end to end before the task may run, and read ahead a row at a
//! time while it does.
//!
//! The caller reads the lines and makes headers and rows of them; what is expected next, and
//! what is wrong with what came, is decided here.

use crate::calibration::{Config, Limit};
use crate::experiment_tasks::{
    bounded, check_header, check_line, check_row, complete, known_motors, row_fault, timed,
    whole_line, Header, Row, MAX_DURATION_MS, PERIOD_MS,
};
use vstd::prelude::*;

verus! {

/// What is expected of an input next.
#[derive(Debug, Clone, Copy, PartialEq, Eq, Structural)]
pub enum Wanted {
    Header,
    Row,
    End,
}

/// How far an input has been looked over.
pub struct Intake {
    pub header: Option<Header>,
    /// How many rows the header promises.
    pub frames: u64,
    /// How many of them have been seen.
    pub rows: u64,
    pub taken: Ghost<Seq<Row>>,
}

/// Why a header cannot be taken.
pub open spec fn header_fault(h: Header, limits: Seq<Limit>, hz: u32) -> Option<Seq<char>> {
    if !timed(h, hz) {
        Some("require v1, 20 ms periods and duration 20..1800000 ms divisible by 20"@)
    } else if !known_motors(h.motor_ids@, limits) {
        Some("unknown, duplicate or empty motor set"@)
    } else if !bounded(h) {
        Some("invalid explicit start/tracking/temperature limits"@)
    } else {
        None
    }
}

/// Why a line cannot be taken, whatever is written on it.
pub open spec fn line_fault(line: Seq<u8>) -> Option<Seq<char>> {
    if whole_line(line) {
        None
    } else {
        Some("missing/truncated line or line exceeds 4096 bytes"@)
    }
}

/// Whether rows follow one another at the task's pace, each of them telling every motor something.
pub open spec fn scheduled(rows: Seq<Row>, ids: Seq<u8>) -> bool {
    forall|i: int|
        0 <= i < rows.len() ==> (#[trigger] rows[i]).at_ms == i * PERIOD_MS && complete(rows[i], ids)
}

impl Intake {
    pub open spec fn valid(self) -> bool {
        &&& self.rows <= self.frames <= MAX_DURATION_MS
        &&& self.taken@.len() == self.rows
        &&& match self.header {
            None => self.frames == 0,
            Some(h) => self.frames == h.duration_ms / PERIOD_MS && scheduled(
                self.taken@,
                h.motor_ids@,
            ),
        }
    }

    /// What is expected next: a header, as many rows as it promises, and nothing more.
    pub open spec fn expects(self) -> Wanted {
        if self.header is None {
            Wanted::Header
        } else if self.rows < self.frames {
            Wanted::Row
        } else {
            Wanted::End
        }
    }

    pub fn new() -> (intake: Intake)
        ensures
            intake.valid(),
            intake.expects() == Wanted::Header,
    {
        Intake { header: None, frames: 0, rows: 0, taken: Ghost(Seq::empty()) }
    }

    pub fn wanted(&self) -> (wanted: Wanted)
        ensures
            wanted == self.expects(),
    {
        if self.header.is_none() {
            Wanted::Header
        } else if self.rows < self.frames {
            Wanted::Row
        } else {
            Wanted::End
        }
    }

    /// Takes the first line, with the header that was read off it.
    pub fn take_header(
        &mut self,
        line: &[u8],
        parsed: Result<Header, String>,
        cfg: &Config,
        hz: u32,
    ) -> (ok: Result<(), String>)
        requires
            old(self).valid(),
            old(self).expects() == Wanted::Header,
        ensures
            final(self).valid(),
            match ok {
                Ok(()) => {
                    &&& line_fault(line@) is None
                    &&& parsed matches Ok(h) && header_fault(h, cfg.limits@, hz) is None
                        && final(self).header == Some(h)
                    &&& final(self).rows == 0
                    &&& final(self).taken@ == Seq::<Row>::empty()
                },
                Err(why) => *final(self) == *old(self) && (if line_fault(line@) is Some {
                    line_fault(line@) == Some(why@)
                } else {
                    match parsed {
                        Err(e) => why@ == e@,
                        Ok(h) => header_fault(h, cfg.limits@, hz) == Some(why@),
                    }
                }),
            },
    {
        match check_line(line) {
            Err(why) => {
                return Err(why);
            },
            Ok(()) => {},
        }
        match parsed {
            Err(why) => Err(why),
            Ok(header) => match check_header(&header, cfg, hz) {
                Err(why) => Err(why),
                Ok(frames) => {
                    proof {
                        assert(self.taken@ =~= Seq::empty());
                    }
                    self.frames = frames;
                    self.header = Some(header);
                    Ok(())
                },
            },
        }
    }

    /// Takes the next line, with the row that was read off it and whether its commands are ones
    /// the motors take.
    pub fn take_row(
        &mut self,
        line: &[u8],
        parsed: Result<Row, String>,
        commands: Result<(), String>,
    ) -> (ok: Result<(), String>)
        requires
            old(self).valid(),
            old(self).expects() == Wanted::Row,
        ensures
            final(self).valid(),
            final(self).header == old(self).header,
            final(self).frames == old(self).frames,
            match ok {
                Ok(()) => {
                    &&& line_fault(line@) is None
                    &&& parsed matches Ok(row) && row_fault(
                        row,
                        old(self).rows as nat,
                        old(self).header->0.motor_ids@,
                        commands,
                    ) is None && final(self).taken@ == old(self).taken@.push(row)
                    &&& final(self).rows == old(self).rows + 1
                },
                Err(why) => *final(self) == *old(self) && (if line_fault(line@) is Some {
                    line_fault(line@) == Some(why@)
                } else {
                    match parsed {
                        Err(e) => why@ == e@,
                        Ok(row) => row_fault(
                            row,
                            old(self).rows as nat,
                            old(self).header->0.motor_ids@,
                            commands,
                        ) == Some(why@),
                    }
                }),
            },
    {
        match check_line(line) {
            Err(why) => {
                return Err(why);
            },
            Ok(()) => {},
        }
        let row = match parsed {
            Err(why) => {
                return Err(why);
            },
            Ok(row) => row,
        };
        match &self.header {
            Some(header) => match check_row(&row, self.rows, &header.motor_ids, &commands) {
                Err(why) => {
                    return Err(why);
                },
                Ok(()) => {},
            },
            None => {},
        }
        proof {
            self.taken@ = self.taken@.push(row);
        }
        self.rows = self.rows + 1;
        Ok(())
    }

    /// Ends the reading, given whether anything is left behind the last row. An input that is
    /// taken holds exactly the rows that its header promises, each at its time.
    pub fn end(self, more: bool) -> (input: Result<(Header, u64), String>)
        requires
            self.valid(),
            self.expects() == Wanted::End,
        ensures
            match input {
                Ok((h, n)) => {
                    &&& !more
                    &&& self.header == Some(h)
                    &&& n == h.duration_ms / PERIOD_MS
                    &&& self.taken@.len() == n
                    &&& scheduled(self.taken@, h.motor_ids@)
                },
                Err(why) => more && why@ == "unexpected trailing frames or bytes"@,
            },
    {
        if more {
            return Err("unexpected trailing frames or bytes".to_owned());
        }
        match self.header {
            Some(header) => Ok((header, self.frames)),
            None => Err("unexpected trailing frames or bytes".to_owned()),
        }
    }
}

/// What became of a row that was handed to the control loop.
#[derive(Debug, Clone, Copy, PartialEq, Eq, Structural)]
pub enum Sent {
    Taken,
    Full,
    Gone,
}

/// What to do about the control loop's next row.
#[derive(Debug, Clone, Copy, PartialEq, Eq, Structural)]
pub enum Fetch {
    /// Read it off the input, and hand it over.
    Read,
    /// Hand over the one that was read before and did not fit.
    Again,
    /// Nothing: there are no more.
    Rest,
}

/// How far a task has been read ahead. The first row is handed over before.
#[derive(Debug, Clone, Copy, PartialEq, Eq, Structural)]
pub struct Prefetch {
    /// The number of the row that is handed over next.
    pub next: u64,
    pub frames: u64,
    /// Whether that row has been read already.
    pub held: bool,
}

impl Prefetch {
    pub fn new(frames: u64) -> (p: Self)
        ensures
            p == (Prefetch { next: 1, frames, held: false }),
    {
        Prefetch { next: 1, frames, held: false }
    }

    pub open spec fn due(self) -> Fetch {
        if self.next >= self.frames {
            Fetch::Rest
        } else if self.held {
            Fetch::Again
        } else {
            Fetch::Read
        }
    }

    pub fn step(&self) -> (fetch: Fetch)
        ensures
            fetch == self.due(),
    {
        if self.next >= self.frames {
            Fetch::Rest
        } else if self.held {
            Fetch::Again
        } else {
            Fetch::Read
        }
    }

    /// Where reading ahead stands once a row has been handed over.
    pub open spec fn after(self, sent: Sent) -> Prefetch {
        match sent {
            Sent::Taken => Prefetch { next: (self.next + 1) as u64, held: false, ..self },
            Sent::Full => Prefetch { held: true, ..self },
            Sent::Gone => Prefetch { next: self.frames, held: false, ..self },
        }
    }

    /// Takes in how handing a row over went, and says whether to go on with the next at once. A
    /// row that did not fit is kept and handed over again later; once nobody listens, no more are
    /// read.
    pub fn handed(&mut self, sent: Sent) -> (more: bool)
        requires
            old(self).due() != Fetch::Rest,
        ensures
            *final(self) == old(self).after(sent),
            more == (sent == Sent::Taken),
    {
        match sent {
            Sent::Taken => {
                self.next = self.next + 1;
                self.held = false;
                true
            },
            Sent::Full => {
                self.held = true;
                false
            },
            Sent::Gone => {
                self.next = self.frames;
                self.held = false;
                false
            },
        }
    }
}

/// No row is skipped and none comes twice: a row is read once, is handed over until it is taken,
/// and only then is the one behind it read.
pub proof fn rows_are_read_ahead_in_order(p: Prefetch, sent: Sent)
    requires
        p.due() != Fetch::Rest,
    ensures
        sent == Sent::Full ==> p.after(sent).due() == Fetch::Again && p.after(sent).next == p.next,
        sent == Sent::Taken ==> p.after(sent).next == p.next + 1 && p.after(sent).due()
            != Fetch::Again,
        sent == Sent::Gone ==> p.after(sent).due() == Fetch::Rest,
{
}

/// An input is taken line by line: a header that is sound, then rows until there are as many as the
/// header's duration has periods of twenty milliseconds, and then nothing.
pub proof fn an_input_is_its_header_and_rows(intake: Intake)
    requires
        intake.valid(),
    ensures
        intake.expects() == Wanted::Header <==> intake.header is None,
        intake.expects() == Wanted::Row <==> (intake.header matches Some(h) && intake.taken@.len()
            < h.duration_ms / 20),
        intake.expects() == Wanted::End <==> (intake.header matches Some(h) && intake.taken@.len()
            == h.duration_ms / 20),
        forall|i: int|
            0 <= i < intake.taken@.len() && intake.header is Some ==> (
            #[trigger] intake.taken@[i]).at_ms == 20 * i && intake.taken@[i].motors@.len()
                == intake.header->0.motor_ids@.len(),
{
}

/// A header is refused exactly where something is wrong with its times, its motors or its limits.
pub proof fn a_header_is_refused_for_a_reason(h: Header, limits: Seq<Limit>, hz: u32)
    ensures
        header_fault(h, limits, hz) is None <==> timed(h, hz) && known_motors(h.motor_ids@, limits)
            && bounded(h),
        line_fault(Seq::empty()) is Some,
{
}

/// The rows of a task stand twenty milliseconds apart, from the start on, and each commands as many
/// motors as were selected, and only those.
pub proof fn how_rows_are_scheduled(rows: Seq<Row>, ids: Seq<u8>, i: int, k: int)
    requires
        scheduled(rows, ids),
        0 <= i < rows.len(),
        0 <= k < rows[i].motors@.len(),
    ensures
        rows[i].at_ms == 20 * i,
        rows[i].motors@.len() == ids.len(),
        ids.contains(rows[i].motors@[k].motor_id),
{
}

} // verus!
