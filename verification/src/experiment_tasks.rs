//! Durable precomputed tasks: what may be stored, when a task may run, and which command is due.
//!
//! Disk work stays with the caller. Angles and the like are in billionths of their unit; a value
//! that is not a finite number is `None`.

use crate::calibration::{Config, Limit};
use crate::hex::{encode, encoded};
use crate::outside::{sha256, sha256_digest};
use crate::scan::{chars_of, decimal, push_decimal, push_text, same_text};
use vstd::prelude::*;

verus! {

/// The largest input, in bytes.
pub const MAX_INPUT: u64 = 134_217_728;

/// The most that a task may record, in bytes.
pub const MAX_RESULT: u64 = 536_870_912;

/// The most that all tasks together may take up, in bytes.
pub const MAX_STORE: u64 = 2_147_483_648;

/// What is always left free on disk, in bytes.
pub const DISK_MARGIN: u64 = 536_870_912;

pub const MAX_TASKS: usize = 8;

/// The longest line of an input, in bytes.
pub const ROW_BYTES: u64 = 4_096;

/// The longest record, in bytes.
pub const RECORD_BYTES: u64 = 4_096;

/// How many rows are read ahead, and how many records may wait.
pub const BUFFER: usize = 64;

/// The largest chunk of an upload, in bytes.
pub const CHUNK: usize = 8_192;

/// How long an unfinished upload is kept, in seconds.
pub const UPLOAD_SECS: u64 = 3_600;

/// The longest task, in milliseconds.
pub const MAX_DURATION_MS: u64 = 1_800_000;

/// The time between two commands, in milliseconds.
pub const PERIOD_MS: u64 = 20;

/// How late a command may be, in microseconds.
pub const LATE_US: u64 = 40_000;

/// Room for what a result needs besides its data, in bytes.
pub const OVERHEAD: u64 = 1_048_576;

/// What one motor is told.
#[derive(Debug, Clone, Copy, PartialEq, Eq, Structural)]
pub struct Command {
    pub motor_id: u8,
    pub p: i64,
    pub v: i64,
    pub tau: i64,
    pub kp: i64,
    pub kd: i64,
}

/// The first line of an input.
pub struct Header {
    pub version: u8,
    pub period_ms: u64,
    pub duration_ms: u64,
    pub motor_ids: Vec<u8>,
    pub start_tolerance: Option<i64>,
    pub max_tracking_error: Option<i64>,
    pub max_temperature: Option<i64>,
}

/// Every other line: what the motors are told at some time.
pub struct Row {
    pub at_ms: u64,
    pub motors: Vec<Command>,
}

impl Row {
    pub fn copy(&self) -> (row: Row)
        ensures
            row.at_ms == self.at_ms,
            row.motors@ == self.motors@,
    {
        let mut motors: Vec<Command> = Vec::new();
        let mut at: usize = 0;
        while at < self.motors.len()
            invariant
                at <= self.motors@.len(),
                motors@ == self.motors@.take(at as int),
            decreases self.motors@.len() - at,
        {
            motors.push(self.motors[at]);
            at = at + 1;
        }
        Row { at_ms: self.at_ms, motors }
    }
}

/// How far along a task is.
#[derive(Debug, Clone, Copy, PartialEq, Eq, Structural)]
pub enum State {
    Uploading,
    Ready,
    Preparing,
    Running,
    Stopping,
    Finalizing,
    Interrupted,
    Cancelled,
    Completed,
    Stopped,
    Failed,
    StorageFailed,
}

impl State {
    pub fn as_str(self) -> (name: &'static str)
        ensures
            name@ == (match self {
                State::Uploading => "uploading"@,
                State::Ready => "ready"@,
                State::Preparing => "preparing"@,
                State::Running => "running"@,
                State::Stopping => "stopping"@,
                State::Finalizing => "finalizing"@,
                State::Interrupted => "interrupted"@,
                State::Cancelled => "cancelled"@,
                State::Completed => "completed"@,
                State::Stopped => "stopped"@,
                State::Failed => "failed"@,
                State::StorageFailed => "storage_failed"@,
            }),
    {
        match self {
            State::Uploading => "uploading",
            State::Ready => "ready",
            State::Preparing => "preparing",
            State::Running => "running",
            State::Stopping => "stopping",
            State::Finalizing => "finalizing",
            State::Interrupted => "interrupted",
            State::Cancelled => "cancelled",
            State::Completed => "completed",
            State::Stopped => "stopped",
            State::Failed => "failed",
            State::StorageFailed => "storage_failed",
        }
    }

    /// What a task is after a restart.
    pub open spec fn restarted(self) -> State {
        if self.under_way() {
            State::Interrupted
        } else {
            self
        }
    }

    /// Whether a task was under way.
    pub open spec fn under_way(self) -> bool {
        self == State::Preparing || self == State::Running || self == State::Stopping || self
            == State::Finalizing
    }
}

/// What is kept of a task.
pub struct Meta {
    pub id: String,
    pub state: State,
    pub created_unix: u64,
    pub input_bytes: u64,
    pub input_sha256: String,
    pub received_bytes: u64,
    pub header: Option<Header>,
    pub frames: u64,
    pub executed_frames: u64,
    pub reason: Option<String>,
    pub disabled_confirmed: bool,
    pub result_sha256: Option<String>,
    pub result_bytes: Option<u64>,
}

impl Meta {
    /// How much disk a task may come to need: its input and result, or as much as they can be
    /// while that is not known.
    pub open spec fn reserved(self) -> int {
        if self.result_sha256 is Some {
            self.input_bytes + (match self.result_bytes {
                Some(bytes) => bytes as int,
                None => 0,
            }) + self.frames * RECORD_BYTES + OVERHEAD
        } else if self.header is Some {
            self.input_bytes * 2 + self.frames * RECORD_BYTES * 2 + OVERHEAD
        } else {
            self.input_bytes * 2 + MAX_RESULT * 2
        }
    }

    pub fn reserve(&self) -> (bytes: u128)
        ensures
            bytes == self.reserved(),
            bytes <= 0x1_0000_0000_0000_0000_0000_0000u128,
    {
        let frames: u128 = self.frames as u128 * 4096;
        if self.result_sha256.is_some() {
            let result: u64 = match self.result_bytes {
                Some(bytes) => bytes,
                None => 0,
            };
            self.input_bytes as u128 + result as u128 + frames + OVERHEAD as u128
        } else if self.header.is_some() {
            self.input_bytes as u128 * 2 + frames * 2 + OVERHEAD as u128
        } else {
            self.input_bytes as u128 * 2 + MAX_RESULT as u128 * 2
        }
    }

    /// Never resumes motion after a restart: a task that was under way has been interrupted, and
    /// nothing is known of the motors. Says whether that was the case.
    pub fn restart(&mut self) -> (interrupted: bool)
        ensures
            interrupted == old(self).state.under_way(),
            !interrupted ==> *final(self) == *old(self),
            interrupted ==> (final(self).reason matches Some(why) && why@
                == "robotd restarted; task never resumes automatically"@) && *final(self) == (Meta {
                state: State::Interrupted,
                reason: final(self).reason,
                disabled_confirmed: false,
                ..*old(self)
            }),
            final(self).state == old(self).state.restarted(),
    {
        match self.state {
            State::Preparing | State::Running | State::Stopping | State::Finalizing => {
                self.state = State::Interrupted;
                self.reason = Some("robotd restarted; task never resumes automatically".to_owned());
                self.disabled_confirmed = false;
                true
            },
            _ => false,
        }
    }
}

/// Whether a character is a digit of a lower-case hexadecimal number.
pub open spec fn lower_hex(c: char) -> bool {
    ('0' <= c && c <= '9') || ('a' <= c && c <= 'f')
}

/// Whether a text is so many lower-case hexadecimal digits.
pub open spec fn hex_name(text: Seq<char>, len: nat) -> bool {
    text.len() == len && forall|i: int| 0 <= i < len ==> lower_hex(#[trigger] text[i])
}

fn is_hex_name(text: &str, len: usize) -> (yes: bool)
    ensures
        yes == hex_name(text@, len as nat),
{
    let chars = chars_of(text);
    if chars.len() != len {
        return false;
    }
    let mut at: usize = 0;
    while at < chars.len()
        invariant
            at <= chars@.len(),
            chars@ == text@,
            forall|i: int| 0 <= i < at ==> lower_hex(#[trigger] text@[i]),
        decreases chars@.len() - at,
    {
        let c: char = chars[at];
        if !(('0' <= c && c <= '9') || ('a' <= c && c <= 'f')) {
            proof {
                assert(!lower_hex(text@[at as int]));
            }
            return false;
        }
        at = at + 1;
    }
    true
}

/// Only what could be a task's name ever becomes part of a path.
pub fn check_id(id: &str) -> (ok: Result<(), String>)
    ensures
        match ok {
            Ok(()) => hex_name(id@, 32),
            Err(why) => !hex_name(id@, 32) && why@ == "invalid task id"@,
        },
{
    if is_hex_name(id, 32) {
        Ok(())
    } else {
        Err("invalid task id".to_owned())
    }
}

/// The SHA-256 digest of some bytes, in lower-case hexadecimal.
pub fn digest(data: &[u8]) -> (text: String)
    ensures
        text@ == encoded(sha256_digest(data@)),
{
    let hash = sha256(data);
    encode(vstd::array::array_as_slice(&hash))
}

/// Sixteen random bytes as a task's name.
pub fn id_of(bytes: &[u8; 16]) -> (id: String)
    ensures
        id@ == encoded(bytes@),
        hex_name(id@, 32),
{
    let id = encode(vstd::array::array_as_slice(bytes));
    proof {
        assert forall|i: int| 0 <= i < 32 implies lower_hex(#[trigger] id@[i]) by {
            let byte = bytes@[i / 2] as int;
            assert(0 <= byte / 16 < 16 && 0 <= byte % 16 < 16);
        }
    }
    id
}

/// Whether a line is whole and not too long.
pub open spec fn whole_line(bytes: Seq<u8>) -> bool {
    0 < bytes.len() <= ROW_BYTES && bytes.last() == 10
}

/// Looks a line of an input over before it is read.
pub fn check_line(bytes: &[u8]) -> (ok: Result<(), String>)
    ensures
        match ok {
            Ok(()) => whole_line(bytes@),
            Err(why) => !whole_line(bytes@) && why@
                == "missing/truncated line or line exceeds 4096 bytes"@,
        },
{
    if bytes.len() == 0 || bytes.len() > ROW_BYTES as usize || bytes[bytes.len() - 1] != 10 {
        Err("missing/truncated line or line exceeds 4096 bytes".to_owned())
    } else {
        Ok(())
    }
}

/// Whether a task is the one that is left out of account.
pub open spec fn excluded(meta: Meta, excluding: Option<Seq<char>>) -> bool {
    excluding == Some(meta.id@)
}

/// How much disk some tasks may come to need together.
pub open spec fn reserved_by(metas: Seq<Meta>, excluding: Option<Seq<char>>) -> int
    decreases metas.len(),
{
    if metas.len() == 0 {
        0
    } else {
        reserved_by(metas.drop_last(), excluding) + (if excluded(metas.last(), excluding) {
            0
        } else {
            metas.last().reserved()
        })
    }
}

proof fn lemma_reserved_grows(metas: Seq<Meta>, excluding: Option<Seq<char>>, n: int)
    requires
        0 <= n <= metas.len(),
    ensures
        0 <= reserved_by(metas.take(n), excluding) <= reserved_by(metas, excluding),
    decreases metas.len(),
{
    if n == metas.len() {
        assert(metas.take(n) =~= metas);
        if metas.len() > 0 {
            lemma_reserved_grows(metas.drop_last(), excluding, n - 1);
            assert(metas.drop_last().take(n - 1) =~= metas.drop_last());
            lemma_reserved_natural(metas.last());
        }
    } else {
        lemma_reserved_grows(metas.drop_last(), excluding, n);
        assert(metas.drop_last().take(n) =~= metas.take(n));
        lemma_reserved_natural(metas.last());
    }
}

proof fn lemma_reserved_natural(meta: Meta)
    ensures
        meta.reserved() >= 0,
{
}

/// The excluded task, as a text.
pub open spec fn left_out(excluding: Option<&str>) -> Option<Seq<char>> {
    match excluding {
        Some(id) => Some(id@),
        None => None,
    }
}

/// Why there is no room for so much more.
pub open spec fn crowded(metas: Seq<Meta>, reserve: int, excluding: Option<Seq<char>>, free: int) -> Option<
    Seq<char>,
> {
    if reserved_by(metas, excluding) + reserve > MAX_STORE {
        Some("task storage quota exceeded; download and acknowledge old results"@)
    } else if free < reserve + DISK_MARGIN {
        Some("insufficient free disk for task and complete result"@)
    } else {
        None
    }
}

/// Whether there is room for so much more beside the tasks there are, given what is free on disk.
pub fn space(metas: &Vec<Meta>, reserve: u128, excluding: Option<&str>, free: u128) -> (ok: Result<
    (),
    String,
>)
    requires
        reserve <= 0x1_0000_0000_0000_0000_0000_0000u128,
    ensures
        match ok {
            Ok(()) => crowded(metas@, reserve as int, left_out(excluding), free as int) is None,
            Err(why) => crowded(metas@, reserve as int, left_out(excluding), free as int) == Some(
                why@,
            ),
        },
{
    let mut total: u128 = 0;
    let mut at: usize = 0;
    proof {
        assert(metas@.take(0) =~= Seq::empty());
    }
    while at < metas.len()
        invariant
            at <= metas@.len(),
            reserve <= 0x1_0000_0000_0000_0000_0000_0000u128,
            total == reserved_by(metas@.take(at as int), left_out(excluding)),
            total <= MAX_STORE,
        decreases metas@.len() - at,
    {
        proof {
            assert(metas@.take(at + 1).drop_last() =~= metas@.take(at as int));
        }
        let skip = match excluding {
            Some(id) => same_text(id, metas[at].id.as_str()),
            None => false,
        };
        if !skip {
            total = total + metas[at].reserve();
        }
        if total > MAX_STORE as u128 {
            proof {
                lemma_reserved_grows(metas@, left_out(excluding), at + 1);
            }
            return Err(
                "task storage quota exceeded; download and acknowledge old results".to_owned(),
            );
        }
        at = at + 1;
    }
    proof {
        assert(metas@.take(at as int) =~= metas@);
    }
    if total + reserve > MAX_STORE as u128 {
        return Err("task storage quota exceeded; download and acknowledge old results".to_owned());
    }
    if free < reserve + DISK_MARGIN as u128 {
        return Err("insufficient free disk for task and complete result".to_owned());
    }
    Ok(())
}

/// Whether an upload was left unfinished for so long that it may go. Anything that got further is
/// never thrown out.
pub fn expired(meta: &Meta, now_unix: u64) -> (yes: bool)
    ensures
        yes == (meta.state == State::Uploading && now_unix - meta.created_unix > UPLOAD_SECS),
        yes <==> meta.state == State::Uploading && now_unix > meta.created_unix + 3_600,
{
    match meta.state {
        State::Uploading => now_unix > meta.created_unix && now_unix - meta.created_unix > UPLOAD_SECS,
        _ => false,
    }
}

/// Why an upload is not opened.
pub open spec fn begin_fault(bytes: u64, sha256: Seq<char>) -> bool {
    !(0 < bytes <= MAX_INPUT && hex_name(sha256, 64))
}

/// Whether an upload can be asked for at all.
pub fn check_begin(bytes: u64, sha256: &str) -> (ok: Result<(), String>)
    ensures
        match ok {
            Ok(()) => !begin_fault(bytes, sha256@),
            Err(why) => begin_fault(bytes, sha256@) && why@ == "invalid upload size/SHA-256"@,
        },
{
    if bytes == 0 || bytes > MAX_INPUT || !is_hex_name(sha256, 64) {
        Err("invalid upload size/SHA-256".to_owned())
    } else {
        Ok(())
    }
}

/// The task that an upload opens, among those that are left once expired ones are gone.
pub fn begin(bytes: u64, sha256: &str, id: &str, now_unix: u64, metas: &Vec<Meta>, free: u128) -> (meta: Result<
    Meta,
    String,
>)
    ensures
        match meta {
            Ok(m) => {
                &&& !begin_fault(bytes, sha256@)
                &&& metas@.len() < MAX_TASKS
                &&& crowded(metas@, m.reserved(), None, free as int) is None
                &&& m.id@ == id@
                &&& m.state == State::Uploading
                &&& m.created_unix == now_unix
                &&& m.input_bytes == bytes
                &&& m.input_sha256@ == sha256@
                &&& m.received_bytes == 0
                &&& m.header is None
                &&& m.frames == 0
                &&& m.executed_frames == 0
                &&& m.reason is None
                &&& !m.disabled_confirmed
                &&& m.result_sha256 is None
                &&& m.result_bytes is None
            },
            Err(why) => if begin_fault(bytes, sha256@) {
                why@ == "invalid upload size/SHA-256"@
            } else if metas@.len() >= MAX_TASKS {
                why@ == "task count limit reached"@
            } else {
                crowded(metas@, bytes * 2 + MAX_RESULT * 2, None, free as int) == Some(why@)
            },
        },
{
    match check_begin(bytes, sha256) {
        Err(why) => {
            return Err(why);
        },
        Ok(()) => {},
    }
    if metas.len() >= MAX_TASKS {
        return Err("task count limit reached".to_owned());
    }
    let meta = Meta {
        id: id.to_owned(),
        state: State::Uploading,
        created_unix: now_unix,
        input_bytes: bytes,
        input_sha256: sha256.to_owned(),
        received_bytes: 0,
        header: None,
        frames: 0,
        executed_frames: 0,
        reason: None,
        disabled_confirmed: false,
        result_sha256: None,
        result_bytes: None,
    };
    match space(metas, meta.reserve(), None, free) {
        Ok(()) => Ok(meta),
        Err(why) => Err(why),
    }
}

impl Meta {
    /// Whether a chunk continues an upload, of which so much has come.
    pub open spec fn continues(self, received: u64, offset: u64, len: nat) -> bool {
        &&& self.state == State::Uploading
        &&& 0 < len <= CHUNK
        &&& offset == received
        &&& offset + len <= self.input_bytes
    }

    /// Looks a chunk over. Hands back how much there will be once it is stored.
    pub fn chunk(&self, received: u64, offset: u64, len: usize) -> (after: Result<u64, String>)
        ensures
            match after {
                Ok(n) => self.continues(received, offset, len as nat) && n == offset + len,
                Err(why) => !self.continues(received, offset, len as nat) && why@
                    == "invalid upload state, offset or chunk size"@,
            },
    {
        let uploading = match self.state {
            State::Uploading => true,
            _ => false,
        };
        if !uploading || len == 0 || len > CHUNK || offset != received || offset > self.input_bytes
            || len as u64 > self.input_bytes - offset {
            return Err("invalid upload state, offset or chunk size".to_owned());
        }
        Ok(offset + len as u64)
    }

    /// Whether an upload can be thrown away.
    pub fn check_abort(&self) -> (ok: Result<(), String>)
        ensures
            match ok {
                Ok(()) => self.state == State::Uploading,
                Err(why) => self.state != State::Uploading && why@
                    == "only unfinished uploads can be aborted"@,
            },
    {
        match self.state {
            State::Uploading => Ok(()),
            _ => Err("only unfinished uploads can be aborted".to_owned()),
        }
    }

    /// Cancels a task that has not been started, and says whether it did.
    pub fn cancel_ready(&mut self) -> (cancelled: bool)
        ensures
            cancelled == (old(self).state == State::Ready),
            !cancelled ==> *final(self) == *old(self),
            cancelled ==> (final(self).reason matches Some(why) && why@
                == "cancelled before starting; no motor commands executed"@) && *final(self) == (Meta {
                state: State::Cancelled,
                reason: final(self).reason,
                ..*old(self)
            }),
    {
        match self.state {
            State::Ready => {
                self.state = State::Cancelled;
                self.reason = Some(
                    "cancelled before starting; no motor commands executed".to_owned(),
                );
                true
            },
            _ => false,
        }
    }

    /// Whether everything has come, unchanged.
    pub fn check_input(&self, received: u64, data: &[u8]) -> (ok: Result<(), String>)
        ensures
            match ok {
                Ok(()) => received == self.input_bytes && encoded(sha256_digest(data@))
                    == self.input_sha256@,
                Err(why) => if received != self.input_bytes {
                    why@ == "incomplete upload"@
                } else {
                    encoded(sha256_digest(data@)) != self.input_sha256@ && why@
                        == "input SHA-256 mismatch"@
                },
            },
    {
        if received != self.input_bytes {
            return Err("incomplete upload".to_owned());
        }
        let hash = digest(data);
        self.check_hash(hash.as_str())
    }

    /// Whether a digest is that of the input.
    pub fn check_hash(&self, hash: &str) -> (ok: Result<(), String>)
        ensures
            match ok {
                Ok(()) => hash@ == self.input_sha256@,
                Err(why) => hash@ != self.input_sha256@ && why@ == "input SHA-256 mismatch"@,
            },
    {
        if same_text(hash, self.input_sha256.as_str()) {
            Ok(())
        } else {
            Err("input SHA-256 mismatch".to_owned())
        }
    }
}

/// Whether the times in a header are the ones that can be kept.
pub open spec fn timed(h: Header, hz: u32) -> bool {
    &&& h.version == 1
    &&& hz == 50
    &&& h.period_ms == PERIOD_MS
    &&& 0 < h.duration_ms <= MAX_DURATION_MS
    &&& h.duration_ms % PERIOD_MS == 0
}

/// Whether a motor has a range.
pub open spec fn ranged(limits: Seq<Limit>, id: u8) -> bool {
    exists|j: int| 0 <= j < limits.len() && (#[trigger] limits[j]).motor_id == id
}

/// Whether the motors in a header are there, each of them once.
pub open spec fn known_motors(ids: Seq<u8>, limits: Seq<Limit>) -> bool {
    &&& 0 < ids.len() <= limits.len()
    &&& ids.no_duplicates()
    &&& forall|i: int| 0 <= i < ids.len() ==> ranged(limits, #[trigger] ids[i])
}

/// Whether a quantity is above one bound and no more than another.
pub open spec fn within(value: Option<i64>, above: int, most: int) -> bool {
    value matches Some(v) && above < v <= most
}

/// Whether the limits in a header are explicit and sensible.
pub open spec fn bounded(h: Header) -> bool {
    &&& within(h.start_tolerance, 0, 500_000_000)
    &&& within(h.max_tracking_error, 0, 3_000_000_000)
    &&& within(h.max_temperature, 999_999_999, 80_000_000_000)
}

fn is_within(value: Option<i64>, above: i64, most: i64) -> (yes: bool)
    ensures
        yes == within(value, above as int, most as int),
{
    match value {
        Some(v) => above < v && v <= most,
        None => false,
    }
}

fn has_limit(limits: &Vec<Limit>, id: u8) -> (yes: bool)
    ensures
        yes == ranged(limits@, id),
{
    let mut at: usize = 0;
    while at < limits.len()
        invariant
            at <= limits@.len(),
            forall|j: int| 0 <= j < at ==> (#[trigger] limits@[j]).motor_id != id,
        decreases limits@.len() - at,
    {
        if limits[at].motor_id == id {
            return true;
        }
        at = at + 1;
    }
    false
}

fn occurs(ids: &Vec<u8>, id: u8, before: usize) -> (yes: bool)
    requires
        before <= ids@.len(),
    ensures
        yes == exists|i: int| 0 <= i < before && ids@[i] == id,
{
    let mut at: usize = 0;
    while at < before
        invariant
            at <= before <= ids@.len(),
            forall|i: int| 0 <= i < at ==> ids@[i] != id,
        decreases before - at,
    {
        if ids[at] == id {
            return true;
        }
        at = at + 1;
    }
    false
}

fn motors_known(ids: &Vec<u8>, limits: &Vec<Limit>) -> (yes: bool)
    ensures
        yes == known_motors(ids@, limits@),
{
    if ids.len() == 0 || ids.len() > limits.len() {
        return false;
    }
    let mut at: usize = 0;
    while at < ids.len()
        invariant
            at <= ids@.len(),
            0 < ids@.len() <= limits@.len(),
            forall|i: int, j: int| 0 <= i < j < at ==> ids@[i] != ids@[j],
            forall|i: int| 0 <= i < at ==> ranged(limits@, #[trigger] ids@[i]),
        decreases ids@.len() - at,
    {
        let id: u8 = ids[at];
        if occurs(ids, id, at) {
            return false;
        }
        if !has_limit(limits, id) {
            proof {
                if known_motors(ids@, limits@) {
                    assert(ids@[at as int] == id);
                }
            }
            return false;
        }
        at = at + 1;
    }
    proof {
        assert(ids@.no_duplicates());
    }
    true
}

/// Looks a header over. Hands back how many frames the task has.
pub fn check_header(h: &Header, cfg: &Config, hz: u32) -> (frames: Result<u64, String>)
    ensures
        match frames {
            Ok(n) => timed(*h, hz) && known_motors(h.motor_ids@, cfg.limits@) && bounded(*h) && n
                == h.duration_ms / PERIOD_MS,
            Err(why) => if !timed(*h, hz) {
                why@ == "require v1, 20 ms periods and duration 20..1800000 ms divisible by 20"@
            } else if !known_motors(h.motor_ids@, cfg.limits@) {
                why@ == "unknown, duplicate or empty motor set"@
            } else {
                !bounded(*h) && why@ == "invalid explicit start/tracking/temperature limits"@
            },
        },
{
    if h.version != 1 || hz != 50 || h.period_ms != PERIOD_MS || h.duration_ms == 0 || h.duration_ms
        > MAX_DURATION_MS || h.duration_ms % PERIOD_MS != 0 {
        return Err(
            "require v1, 20 ms periods and duration 20..1800000 ms divisible by 20".to_owned(),
        );
    }
    if !motors_known(&h.motor_ids, &cfg.limits) {
        return Err("unknown, duplicate or empty motor set".to_owned());
    }
    if !is_within(h.start_tolerance, 0, 500_000_000) || !is_within(
        h.max_tracking_error,
        0,
        3_000_000_000,
    ) || !is_within(h.max_temperature, 999_999_999, 80_000_000_000) {
        return Err("invalid explicit start/tracking/temperature limits".to_owned());
    }
    Ok(h.duration_ms / PERIOD_MS)
}

/// Whether a row tells every motor of the task something, and no other.
pub open spec fn complete(row: Row, ids: Seq<u8>) -> bool {
    &&& row.motors@.len() == ids.len()
    &&& forall|i: int| 0 <= i < row.motors@.len() ==> ids.contains((#[trigger] row.motors@[i]).motor_id)
}

pub open spec fn late_text(index: nat) -> Seq<char> {
    "frame "@ + decimal(index) + ": at_ms must equal "@ + decimal(index * 20)
}

pub open spec fn incomplete_text(index: nat) -> Seq<char> {
    "frame "@ + decimal(index) + ": complete selected motor set required"@
}

/// Why a row does not fit its place, given whether its commands are ones the motors take.
pub open spec fn row_fault(row: Row, index: nat, ids: Seq<u8>, commands: Result<(), String>) -> Option<
    Seq<char>,
> {
    if row.at_ms != index * PERIOD_MS {
        Some(late_text(index))
    } else {
        match commands {
            Err(why) => Some(why@),
            Ok(()) => if !complete(row, ids) {
                Some(incomplete_text(index))
            } else {
                None
            },
        }
    }
}

/// Looks a row over.
pub fn check_row(row: &Row, index: u64, ids: &Vec<u8>, commands: &Result<(), String>) -> (ok: Result<
    (),
    String,
>)
    requires
        index <= MAX_DURATION_MS,
    ensures
        match ok {
            Ok(()) => row_fault(*row, index as nat, ids@, *commands) is None,
            Err(why) => row_fault(*row, index as nat, ids@, *commands) == Some(why@),
        },
{
    if row.at_ms != index * PERIOD_MS {
        let mut why = String::new();
        push_text(&mut why, "frame ");
        push_decimal(&mut why, index);
        push_text(&mut why, ": at_ms must equal ");
        push_decimal(&mut why, index * 20);
        proof {
            assert(why@ =~= late_text(index as nat));
        }
        return Err(why);
    }
    match commands {
        Err(why) => {
            return Err(why.clone());
        },
        Ok(()) => {},
    }
    let mut whole = row.motors.len() == ids.len();
    let mut at: usize = 0;
    while at < row.motors.len()
        invariant
            at <= row.motors@.len(),
            whole == (row.motors@.len() == ids@.len() && forall|i: int|
                0 <= i < at ==> ids@.contains((#[trigger] row.motors@[i]).motor_id)),
        decreases row.motors@.len() - at,
    {
        if !occurs(ids, row.motors[at].motor_id, ids.len()) {
            whole = false;
            proof {
                assert(!ids@.contains(row.motors@[at as int].motor_id));
            }
        }
        at = at + 1;
    }
    if !whole {
        let mut why = String::new();
        push_text(&mut why, "frame ");
        push_decimal(&mut why, index);
        push_text(&mut why, ": complete selected motor set required");
        proof {
            assert(why@ =~= incomplete_text(index as nat));
        }
        return Err(why);
    }
    Ok(())
}

impl Meta {
    /// Makes an upload that was looked over ready to run, if there is room for its result.
    pub fn commit(&mut self, received: u64, header: Header, frames: u64, others: &Vec<Meta>, free: u128) -> (ok: Result<
        (),
        String,
    >)
        requires
            old(self).state == State::Uploading,
        ensures
            match ok {
                Ok(()) => *final(self) == (Meta {
                    received_bytes: received,
                    header: Some(header),
                    frames,
                    state: State::Ready,
                    ..*old(self)
                }) && crowded(others@, final(self).reserved(), Some(old(self).id@), free as int) is None,
                Err(why) => *final(self) == (Meta {
                    received_bytes: received,
                    header: Some(header),
                    frames,
                    ..*old(self)
                }) && crowded(
                    others@,
                    (Meta { header: Some(header), frames, ..*old(self) }).reserved(),
                    Some(old(self).id@),
                    free as int,
                ) == Some(why@),
            },
    {
        self.received_bytes = received;
        self.header = Some(header);
        self.frames = frames;
        let reserve = self.reserve();
        match space(others, reserve, Some(self.id.as_str()), free) {
            Err(why) => Err(why),
            Ok(()) => {
                self.state = State::Ready;
                Ok(())
            },
        }
    }

    /// Whether a task can be started, which it can once.
    pub fn check_ready(&self) -> (ok: Result<(), String>)
        ensures
            match ok {
                Ok(()) => self.state == State::Ready,
                Err(why) => self.state != State::Ready && why@
                    == "task must be ready and can start only once"@,
            },
    {
        match self.state {
            State::Ready => Ok(()),
            _ => Err("task must be ready and can start only once".to_owned()),
        }
    }

    /// A task is being started.
    pub fn prepare(&mut self)
        requires
            old(self).state == State::Ready,
        ensures
            *final(self) == (Meta { state: State::Preparing, ..*old(self) }),
    {
        self.state = State::Preparing;
    }

    /// So many frames have been executed.
    pub fn progress(&mut self, executed: u64)
        ensures
            *final(self) == (Meta {
                state: State::Running,
                executed_frames: executed,
                ..*old(self)
            }),
    {
        self.state = State::Running;
        self.executed_frames = executed;
    }

    /// How a task ended, if whoever ran it said so.
    pub fn conclude(&mut self, outcome: Option<Finish>)
        ensures
            match outcome {
                Some(f) => *final(self) == (Meta {
                    state: f.state,
                    reason: Some(f.reason),
                    disabled_confirmed: f.disabled,
                    ..*old(self)
                }),
                None => (final(self).reason matches Some(why) && why@ == "execution handle disappeared"@)
                    && *final(self) == (Meta {
                    state: State::Failed,
                    reason: final(self).reason,
                    disabled_confirmed: false,
                    ..*old(self)
                }),
            },
    {
        match outcome {
            Some(f) => {
                self.state = f.state;
                self.reason = Some(f.reason);
                self.disabled_confirmed = f.disabled;
            },
            None => {
                self.state = State::Failed;
                self.reason = Some("execution handle disappeared".to_owned());
                self.disabled_confirmed = false;
            },
        }
    }

    /// The disk let a task down.
    pub fn storage_failed(&mut self, error: String, disabled: bool)
        ensures
            *final(self) == (Meta {
                state: State::StorageFailed,
                reason: Some(error),
                disabled_confirmed: disabled,
                ..*old(self)
            }),
    {
        self.reason = Some(error);
        self.state = State::StorageFailed;
        self.disabled_confirmed = disabled;
    }

    /// A result has been packed up.
    pub fn packaged(&mut self, sha256: String, bytes: u64)
        ensures
            *final(self) == (Meta {
                result_sha256: Some(sha256),
                result_bytes: Some(bytes),
                ..*old(self)
            }),
    {
        self.result_sha256 = Some(sha256);
        self.result_bytes = Some(bytes);
    }

    /// Whether there is a result to fetch.
    pub fn check_download(&self) -> (ok: Result<(), String>)
        ensures
            match ok {
                Ok(()) => self.result_sha256 is Some,
                Err(why) => self.result_sha256 is None && why@ == "result not finalized"@,
            },
    {
        if self.result_sha256.is_some() {
            Ok(())
        } else {
            Err("result not finalized".to_owned())
        }
    }

    /// Whether whoever wants a task deleted has its result: they name its digest.
    pub open spec fn acknowledged(self, sha: Seq<char>) -> bool {
        sha.len() > 0 && (self.result_sha256 matches Some(result) && result@ == sha)
    }

    pub fn check_delete(&self, sha: &str) -> (ok: Result<(), String>)
        ensures
            match ok {
                Ok(()) => self.acknowledged(sha@),
                Err(why) => !self.acknowledged(sha@) && why@
                    == "download, verify, then acknowledge the exact result SHA-256"@,
            },
    {
        let same = match &self.result_sha256 {
            Some(result) => same_text(result.as_str(), sha),
            None => false,
        };
        if !same || chars_of(sha).len() == 0 {
            return Err("download, verify, then acknowledge the exact result SHA-256".to_owned());
        }
        Ok(())
    }
}

/// Whether one more record still fits, after so many bytes. Hands back how many there will be.
pub fn check_record(written: u64, len: u64) -> (after: Result<u64, String>)
    requires
        written <= MAX_RESULT,
    ensures
        match after {
            Ok(n) => len <= RECORD_BYTES && n == written + len + 1 && n <= MAX_RESULT,
            Err(why) => !(len <= RECORD_BYTES && written + len + 1 <= MAX_RESULT) && why@
                == "result recording size limit exceeded"@,
        },
{
    if len > RECORD_BYTES || written + len + 1 > MAX_RESULT {
        return Err("result recording size limit exceeded".to_owned());
    }
    Ok(written + len + 1)
}

/// How a run ended.
pub struct Finish {
    pub state: State,
    pub reason: String,
    /// Whether every motor was seen to be off.
    pub disabled: bool,
}

/// A task being run.
pub struct Run {
    pub header: Header,
    pub first: Row,
    pub pending: Option<Row>,
    pub last_row: Option<Row>,
    pub index: u64,
    pub started_us: Option<u64>,
    pub last_tick_us: Option<u64>,
    /// What went wrong on disk, if anything.
    pub failure: Option<String>,
    /// The ranges the task was looked over against.
    pub limits: Vec<Limit>,
    /// Whether there is still someone to take records.
    pub recording: bool,
    pub finish: Option<Finish>,
}

/// What came of reading ahead.
pub enum Received {
    Row(Row),
    Empty,
    Stopped,
}

/// What a run calls for at some time.
#[verifier::ext_equal]
pub enum Turn {
    Fail(Seq<char>),
    /// Too early: the last row again.
    Hold,
    /// Every frame has been executed.
    Finished,
    /// The row that is held ready.
    Ready,
    /// The next row that was read ahead.
    Read,
}

/// A row to execute, and whether it is a new one.
pub enum Next {
    Row(Row, bool),
    Finished,
}

impl Run {
    /// A run about to start, with its first row.
    pub fn new(header: Header, first: Row, limits: Vec<Limit>) -> (run: Run)
        ensures
            run.header == header,
            run.first == first,
            run.pending matches Some(row) && row.at_ms == first.at_ms && row.motors@ == first.motors@,
            run.last_row is None,
            run.index == 0,
            run.started_us is None,
            run.last_tick_us is None,
            run.failure is None,
            run.limits == limits,
            run.recording,
            run.finish is None,
    {
        let pending = first.copy();
        Run {
            header,
            first,
            pending: Some(pending),
            last_row: None,
            index: 0,
            started_us: None,
            last_tick_us: None,
            failure: None,
            limits,
            recording: true,
            finish: None,
        }
    }

    /// Why a run cannot go on, whatever the time: the disk failed it, or the calibration is no
    /// longer the one it was looked over against.
    pub open spec fn broken(self, limits: Seq<Limit>) -> Option<Seq<char>> {
        if self.failure is Some {
            Some(self.failure->0@)
        } else if self.limits@ != limits {
            Some("calibration changed since task validation"@)
        } else {
            None
        }
    }

    pub fn check_config(&self, cfg: &Config) -> (ok: Result<(), String>)
        ensures
            match ok {
                Ok(()) => self.broken(cfg.limits@) is None,
                Err(why) => self.broken(cfg.limits@) == Some(why@),
            },
    {
        match &self.failure {
            Some(why) => {
                return Err(why.clone());
            },
            None => {},
        }
        if !same_limits(&self.limits, &cfg.limits) {
            return Err("calibration changed since task validation".to_owned());
        }
        Ok(())
    }

    /// How long ago something was, by a clock that does not run back.
    pub open spec fn since(now_us: u64, then_us: u64) -> int {
        if now_us > then_us {
            now_us - then_us
        } else {
            0
        }
    }

    /// What a run calls for at some time.
    pub open spec fn turn(self, limits: Seq<Limit>, now_us: u64) -> Turn {
        if self.broken(limits) is Some {
            Turn::Fail(self.broken(limits)->0)
        } else if self.last_tick_us matches Some(t) && Run::since(now_us, t) > LATE_US {
            Turn::Fail("local control interval exceeded 40 ms"@)
        } else if self.started_us matches Some(t) && Run::since(now_us, t) > self.index * 20_000
            + LATE_US {
            Turn::Fail("local task schedule exceeded 40 ms lateness"@)
        } else if self.started_us matches Some(t) && Run::since(now_us, t) < self.index * 20_000 {
            Turn::Hold
        } else if self.index >= self.header.duration_ms / PERIOD_MS {
            Turn::Finished
        } else if self.pending is Some {
            Turn::Ready
        } else {
            Turn::Read
        }
    }

    /// Whether the next row has to be taken from what was read ahead.
    pub fn wants_row(&self, cfg: &Config, now_us: u64) -> (yes: bool)
        ensures
            yes == (self.turn(cfg.limits@, now_us) is Read),
    {
        if self.check_config(cfg).is_err() {
            return false;
        }
        match self.last_tick_us {
            Some(t) => {
                if now_us > t && now_us - t > LATE_US {
                    return false;
                }
            },
            None => {},
        }
        match self.started_us {
            Some(t) => {
                let since: u64 = if now_us > t {
                    now_us - t
                } else {
                    0
                };
                let due: u128 = self.index as u128 * 20_000;
                if since as u128 > due + LATE_US as u128 || (since as u128) < due {
                    return false;
                }
            },
            None => {},
        }
        self.index < self.header.duration_ms / PERIOD_MS && self.pending.is_none()
    }

    /// The row that is due: a new one every twenty milliseconds, the last one again in between,
    /// and none once all have been executed. A run that falls behind fails.
    pub fn next(&mut self, cfg: &Config, now_us: u64, received: Received) -> (next: Result<Next, String>)
        ensures
            match old(self).turn(cfg.limits@, now_us) {
                Turn::Fail(why) => *final(self) == *old(self) && (next matches Err(e) && e@ == why),
                Turn::Hold => *final(self) == (Run { last_tick_us: Some(now_us), ..*old(self) })
                    && match old(self).last_row {
                    Some(last) => next matches Ok(Next::Row(row, false)) && row.at_ms == last.at_ms
                        && row.motors@ == last.motors@,
                    None => next matches Ok(Next::Finished),
                },
                Turn::Finished => *final(self) == *old(self) && (next matches Ok(Next::Finished)),
                Turn::Ready => taken(
                    *old(self),
                    *final(self),
                    old(self).pending->0,
                    now_us,
                    next,
                ),
                Turn::Read => match received {
                    Received::Row(row) => taken(
                        *old(self),
                        *final(self),
                        row,
                        now_us,
                        next,
                    ),
                    Received::Empty => *final(self) == *old(self) && (next matches Err(e) && e@
                        == "command prefetch underrun"@),
                    Received::Stopped => *final(self) == *old(self) && (next matches Err(e) && e@
                        == "command reader stopped"@),
                },
            },
    {
        match self.check_config(cfg) {
            Err(why) => {
                return Err(why);
            },
            Ok(()) => {},
        }
        match self.last_tick_us {
            Some(t) => {
                if now_us > t && now_us - t > LATE_US {
                    return Err("local control interval exceeded 40 ms".to_owned());
                }
            },
            None => {},
        }
        match self.started_us {
            Some(t) => {
                let since: u64 = if now_us > t {
                    now_us - t
                } else {
                    0
                };
                let due: u128 = self.index as u128 * 20_000;
                if since as u128 > due + LATE_US as u128 {
                    return Err("local task schedule exceeded 40 ms lateness".to_owned());
                }
                if (since as u128) < due {
                    self.last_tick_us = Some(now_us);
                    return match &self.last_row {
                        Some(row) => Ok(Next::Row(row.copy(), false)),
                        None => Ok(Next::Finished),
                    };
                }
            },
            None => {},
        }
        if self.index >= self.header.duration_ms / PERIOD_MS {
            return Ok(Next::Finished);
        }
        let row = match self.pending.take() {
            Some(row) => row,
            None => match received {
                Received::Row(row) => row,
                Received::Empty => {
                    return Err("command prefetch underrun".to_owned());
                },
                Received::Stopped => {
                    return Err("command reader stopped".to_owned());
                },
            },
        };
        if self.started_us.is_none() {
            self.started_us = Some(now_us);
        }
        self.last_tick_us = Some(now_us);
        if row.at_ms as u128 != self.index as u128 * PERIOD_MS as u128 {
            return Err("command sequence changed or out of order".to_owned());
        }
        self.last_row = Some(row.copy());
        Ok(Next::Row(row, true))
    }

    /// Notes that a command was executed, whose record was handed over or not. A run that cannot
    /// be recorded cannot go on.
    pub fn record(&mut self, handed: Result<(), String>, advance: bool) -> (ok: Result<(), String>)
        requires
            old(self).index < u64::MAX,
        ensures
            *final(self) == (Run { index: final(self).index, ..*old(self) }),
            match ok {
                Ok(()) => old(self).recording && handed is Ok && final(self).index == old(self).index + (
                if advance {
                    1int
                } else {
                    0
                }),
                Err(why) => final(self).index == old(self).index && (if !old(self).recording {
                    why@ == "task recorder closed"@
                } else {
                    handed matches Err(e) && why@ == "task recording backpressure or failure: "@ + e@
                }),
            },
    {
        if !self.recording {
            return Err("task recorder closed".to_owned());
        }
        match handed {
            Err(e) => {
                let mut why = String::new();
                push_text(&mut why, "task recording backpressure or failure: ");
                push_text(&mut why, e.as_str());
                proof {
                    assert(why@ =~= "task recording backpressure or failure: "@ + e@);
                }
                Err(why)
            },
            Ok(()) => {
                if advance {
                    self.index = self.index + 1;
                }
                Ok(())
            },
        }
    }

    /// Ends a run.
    pub fn end(&mut self, finish: Finish)
        ensures
            *final(self) == (Run { finish: Some(finish), recording: false, ..*old(self) }),
    {
        self.finish = Some(finish);
        self.recording = false;
    }

    /// Whoever ran a task is gone without ending it.
    pub fn abandon(&mut self)
        ensures
            match old(self).finish {
                Some(_) => final(self).finish == old(self).finish,
                None => final(self).finish matches Some(f) && f.state == State::Interrupted && f.reason@
                    == "control handle dropped; no automatic resume"@ && !f.disabled,
            },
            *final(self) == (Run { finish: final(self).finish, recording: false, ..*old(self) }),
    {
        if self.finish.is_none() {
            self.finish = Some(
                Finish {
                    state: State::Interrupted,
                    reason: "control handle dropped; no automatic resume".to_owned(),
                    disabled: false,
                },
            );
        }
        self.recording = false;
    }
}

/// What taking a row leaves of a run: nothing pending, the clock started, and the row kept as the
/// last one if it is the one that was due.
pub open spec fn left_by(before: Run, after: Run, row: Row, now_us: u64) -> bool {
    &&& after == (Run {
        pending: None,
        last_row: after.last_row,
        started_us: match before.started_us {
            Some(t) => Some(t),
            None => Some(now_us),
        },
        last_tick_us: Some(now_us),
        ..before
    })
    &&& if row.at_ms == before.index * PERIOD_MS {
        after.last_row matches Some(last) && last.at_ms == row.at_ms && last.motors@ == row.motors@
    } else {
        after.last_row == before.last_row
    }
}

/// What comes of taking a row: it must be the one whose time it is.
pub open spec fn taken(before: Run, after: Run, row: Row, now_us: u64, next: Result<Next, String>) -> bool {
    &&& left_by(before, after, row, now_us)
    &&& if row.at_ms == before.index * PERIOD_MS {
        next == Ok::<Next, String>(Next::Row(row, true))
    } else {
        next matches Err(e) && e@ == "command sequence changed or out of order"@
    }
}

fn same_limits(a: &Vec<Limit>, b: &Vec<Limit>) -> (same: bool)
    ensures
        same == (a@ == b@),
{
    if a.len() != b.len() {
        return false;
    }
    let mut at: usize = 0;
    while at < a.len()
        invariant
            at <= a@.len(),
            a@.len() == b@.len(),
            forall|i: int| 0 <= i < at ==> a@[i] == b@[i],
        decreases a@.len() - at,
    {
        if a[at] != b[at] {
            return false;
        }
        at = at + 1;
    }
    proof {
        assert(a@ =~= b@);
    }
    true
}

/// After a restart nothing moves by itself: no task is under way, and none that was can be
/// started again.
pub proof fn a_task_never_resumes(state: State)
    ensures
        !state.restarted().under_way(),
        state.under_way() ==> state.restarted() != State::Ready,
        !state.under_way() ==> state.restarted() == state,
{
}

/// A whole chunk at a time and in order: a chunk that continued an upload does not continue it
/// again once it is stored.
pub proof fn a_stored_chunk_is_not_taken_again(meta: Meta, offset: u64, len: nat)
    requires
        meta.continues(offset, offset, len),
    ensures
        !meta.continues((offset + len) as u64, offset, len),
        offset + len <= meta.input_bytes,
{
}

/// Which row is due: a run that has not failed and whose calibration is unchanged fails where the
/// loop was away for more than forty milliseconds or the schedule is more than that behind, holds
/// its last row until twenty milliseconds per frame have passed, and goes on with the next one until
/// all of its frames are executed.
pub proof fn rows_come_at_their_time(run: Run, limits: Seq<Limit>, now_us: u64)
    requires
        run.started_us matches Some(t) ==> t <= now_us,
        run.last_tick_us matches Some(t) ==> t <= now_us,
    ensures
        ({
            let turn = run.turn(limits, now_us);
            let sound = run.failure is None && run.limits@ == limits;
            let away = run.last_tick_us is Some && now_us - run.last_tick_us->0 > 40_000;
            let behind = run.started_us is Some && now_us - run.started_us->0 > run.index * 20_000
                + 40_000;
            let early = run.started_us is Some && now_us - run.started_us->0 < run.index * 20_000;
            let left = run.index < run.header.duration_ms / 20;
            let goes = sound && !away && !behind;
            &&& turn is Fail <==> !goes
            &&& turn is Hold <==> goes && early
            &&& turn is Finished <==> goes && !early && !left
            &&& turn is Ready <==> goes && !early && left && run.pending is Some
            &&& turn is Read <==> goes && !early && left && run.pending is None
        }),
{
}

/// Time between two moments is what lies between them, and none where the second is not later.
pub proof fn time_does_not_run_back(now_us: u64, then_us: u64)
    ensures
        now_us >= then_us ==> Run::since(now_us, then_us) == now_us - then_us,
        now_us <= then_us ==> Run::since(now_us, then_us) == 0,
{
}

/// A row that is taken is the one whose time it is, and is handed on as it came; any other fails
/// the run. Either way the clock of the run starts with its first row and nothing waits any more.
pub proof fn a_taken_row_is_the_one_that_is_due(
    before: Run,
    after: Run,
    row: Row,
    now_us: u64,
    next: Result<Next, String>,
)
    requires
        taken(before, after, row, now_us, next),
    ensures
        next is Ok <==> row.at_ms == before.index * 20,
        next is Ok ==> next == Ok::<Next, String>(Next::Row(row, true)) && (after.last_row matches Some(
            last,
        ) && last.at_ms == row.at_ms && last.motors@ == row.motors@),
        next is Err ==> after.last_row == before.last_row,
        after.pending is None,
        after.last_tick_us == Some(now_us),
        before.started_us is Some ==> after.started_us == before.started_us,
        before.started_us is None ==> after.started_us == Some(now_us),
        after.index == before.index && after.header == before.header,
{
}

/// Whether no range is given for a motor.
pub open spec fn absent(limits: Seq<Limit>, id: u8) -> bool {
    forall|l: int| 0 <= l < limits.len() ==> (#[trigger] limits[l]).motor_id != id
}

/// A header is taken exactly where it is of version one, at fifty commands a second for twenty
/// milliseconds to half an hour, names motors that are there, each once, and gives a tolerance of up
/// to half a radian, a tracking error of up to three, and a temperature between one and eighty
/// degrees.
pub proof fn a_sound_header_is_taken(h: Header, limits: Seq<Limit>, hz: u32)
    ensures
        timed(h, hz) && known_motors(h.motor_ids@, limits) && bounded(h) <==> {
            let ids = h.motor_ids@;
            &&& h.version == 1 && hz == 50 && h.period_ms == 20
            &&& 20 <= h.duration_ms <= 1_800_000
            &&& h.duration_ms % 20 == 0
            &&& 1 <= ids.len() <= limits.len()
            &&& forall|i: int, j: int| 0 <= i < j < ids.len() ==> ids[i] != ids[j]
            &&& forall|i: int|
                0 <= i < ids.len() ==> !absent(limits, #[trigger] ids[i])
            &&& h.start_tolerance is Some && 0 < h.start_tolerance->0 && h.start_tolerance->0
                <= 500_000_000
            &&& h.max_tracking_error is Some && 0 < h.max_tracking_error->0
                && h.max_tracking_error->0 <= 3_000_000_000
            &&& h.max_temperature is Some && 1_000_000_000 <= h.max_temperature->0
                && h.max_temperature->0 <= 80_000_000_000
        },
{
    let ids = h.motor_ids@;
    assert forall|i: int| 0 <= i < ids.len() implies ranged(limits, #[trigger] ids[i]) == !absent(
        limits,
        ids[i],
    ) by {
        if ranged(limits, ids[i]) {
            let l = choose|l: int| 0 <= l < limits.len() && (#[trigger] limits[l]).motor_id == ids[i];
            assert(limits[l].motor_id == ids[i]);
        }
    }
    assert(ids.no_duplicates() <==> (forall|i: int, j: int|
        0 <= i < j < ids.len() ==> ids[i] != ids[j])) by {
        if forall|i: int, j: int| 0 <= i < j < ids.len() ==> ids[i] != ids[j] {
            assert forall|i: int, j: int|
                0 <= i < ids.len() && 0 <= j < ids.len() && i != j implies ids[i] != ids[j] by {
                if j < i {
                    assert(ids[j] != ids[i]);
                }
            }
        }
    }
}

/// A row is taken exactly where it comes at its time, the motors take its commands, and it has one
/// for each motor of the task and none for any other.
pub proof fn a_row_fits_its_place(row: Row, index: nat, ids: Seq<u8>, commands: Result<(), String>)
    ensures
        row_fault(row, index, ids, commands) is None <==> row.at_ms == index * 20 && commands is Ok
            && row.motors@.len() == ids.len() && forall|i: int|
            0 <= i < row.motors@.len() ==> ids.contains((#[trigger] row.motors@[i]).motor_id),
{
}

/// A line is taken exactly where it ends and is no longer than 4096 bytes.
pub proof fn a_line_is_whole(line: Seq<u8>)
    ensures
        whole_line(line) <==> 1 <= line.len() <= 4096 && line[line.len() - 1] == 0x0A,
{
}

/// An upload is opened for one byte to 128 MiB, under a digest of sixty-four lower-case digits.
pub proof fn an_upload_is_named_by_its_digest(bytes: u64, sha256: Seq<char>)
    ensures
        !begin_fault(bytes, sha256) <==> 1 <= bytes <= 128 * 1024 * 1024 && sha256.len() == 64
            && forall|i: int|
            0 <= i < 64 ==> ('0' <= (#[trigger] sha256[i]) <= '9') || ('a' <= sha256[i] <= 'f'),
{
    if !begin_fault(bytes, sha256) {
        assert forall|i: int| 0 <= i < 64 implies ('0' <= (#[trigger] sha256[i]) <= '9') || ('a'
            <= sha256[i] <= 'f') by {
            assert(lower_hex(sha256[i]));
        }
    }
}

/// A task's disk: its input twice and a gigabyte while nothing more is known of it; its input twice
/// and two records of 4 KiB to the frame once it has a header; and what is there, a record to the
/// frame, once it has a result. A mebibyte is set aside besides once it has a header.
pub proof fn what_a_task_reserves(m: Meta)
    ensures
        m.result_sha256 is None && m.header is None ==> m.reserved() == 2 * m.input_bytes + 0x4000_0000,
        m.result_sha256 is None && m.header is Some ==> m.reserved() == 2 * m.input_bytes + 8192
            * m.frames + 0x10_0000,
        m.result_sha256 is Some && m.result_bytes is Some ==> m.reserved() == m.input_bytes
            + m.result_bytes->0 + 4096 * m.frames + 0x10_0000,
        m.result_sha256 is Some && m.result_bytes is None ==> m.reserved() == m.input_bytes + 4096
            * m.frames + 0x10_0000,
{
}

proof fn lemma_reserved_each(metas: Seq<Meta>, excluding: Option<Seq<char>>, i: int)
    requires
        0 <= i < metas.len(),
        excluding != Some(metas[i].id@),
    ensures
        reserved_by(metas, excluding) >= metas[i].reserved(),
    decreases metas.len(),
{
    lemma_reserved_grows(metas.drop_last(), excluding, 0);
    lemma_reserved_natural(metas.last());
    if i < metas.len() - 1 {
        lemma_reserved_each(metas.drop_last(), excluding, i);
        assert(metas.drop_last()[i] == metas[i]);
    }
}

/// Nothing is promised that does not fit: where there is room for so much more, the store stays
/// below two gigabytes with every other task's disk counted, and half a gigabyte stays free.
pub proof fn what_is_taken_fits(
    metas: Seq<Meta>,
    reserve: int,
    excluding: Option<Seq<char>>,
    free: int,
    i: int,
    j: int,
)
    requires
        crowded(metas, reserve, excluding, free) is None,
        reserve >= 0,
        0 <= i < j < metas.len(),
        excluding != Some(metas[i].id@),
        excluding != Some(metas[j].id@),
    ensures
        metas[i].reserved() + metas[j].reserved() + reserve <= 0x8000_0000,
        reserve + 0x2000_0000 <= free,
{
    lemma_reserved_pair(metas, excluding, i, j);
}

proof fn lemma_reserved_pair(metas: Seq<Meta>, excluding: Option<Seq<char>>, i: int, j: int)
    requires
        0 <= i < j < metas.len(),
        excluding != Some(metas[i].id@),
        excluding != Some(metas[j].id@),
    ensures
        reserved_by(metas, excluding) >= metas[i].reserved() + metas[j].reserved(),
    decreases metas.len(),
{
    lemma_reserved_natural(metas.last());
    let rest = metas.drop_last();
    if j < metas.len() - 1 {
        assert(rest[i] == metas[i] && rest[j] == metas[j]);
        lemma_reserved_pair(rest, excluding, i, j);
    } else {
        assert(rest[i] == metas[i]);
        lemma_reserved_each(rest, excluding, i);
    }
}

/// The room that is asked for is counted in full, and what is left out is not: there is room for so
/// much exactly where the rest of the store leaves that much of two gigabytes, and the disk that
/// much and half a gigabyte.
pub proof fn room_is_counted(
    metas: Seq<Meta>,
    more: Meta,
    reserve: int,
    excluding: Option<Seq<char>>,
    free: int,
)
    requires
        excluding != Some(more.id@),
    ensures
        crowded(metas.push(more), reserve, excluding, free) is None && free >= reserve + more.reserved()
            + 0x2000_0000 ==> crowded(metas, reserve + more.reserved(), excluding, free) is None,
        crowded(metas, reserve + more.reserved(), excluding, free) is None ==> crowded(
            metas.push(more),
            reserve,
            excluding,
            free,
        ) is None,
        crowded(metas.push(more), reserve, Some(more.id@), free) is None <==> crowded(
            metas,
            reserve,
            Some(more.id@),
            free,
        ) is None,
        crowded(Seq::<Meta>::empty(), reserve, excluding, free) is None <==> reserve <= 0x8000_0000
            && reserve + 0x2000_0000 <= free,
{
    assert(metas.push(more).drop_last() =~= metas);
    lemma_reserved_natural(more);
}

/// A chunk is taken only while a task is being uploaded, where the last one ended, and no further
/// than the end of what was announced.
pub proof fn chunks_come_in_order(m: Meta, received: u64, offset: u64, len: nat)
    ensures
        m.continues(received, offset, len) <==> m.state == State::Uploading && 1 <= len <= 8192
            && offset == received && received + len <= m.input_bytes,
{
}

/// A result is thrown away only by whoever names it.
pub proof fn a_result_is_acknowledged(m: Meta, sha: Seq<char>)
    ensures
        m.acknowledged(sha) <==> sha.len() > 0 && m.result_sha256 is Some && m.result_sha256->0@ == sha,
{
}

/// A row that was sent is no longer waiting; the clock of the run starts with the first and stands at the
/// last; and a row that came in its own slot, twenty milliseconds to each, is the one that holds.
pub proof fn what_a_sent_row_leaves(before: Run, after: Run, row: Row, now_us: u64)
    requires
        left_by(before, after, row, now_us),
    ensures
        after.pending is None,
        after.last_tick_us == Some(now_us),
        before.started_us is None ==> after.started_us == Some(now_us),
        before.started_us is Some ==> after.started_us == before.started_us,
        row.at_ms == before.index * 20 ==> (after.last_row matches Some(last) && last.at_ms == row.at_ms
            && last.motors@ == row.motors@),
        row.at_ms != before.index * 20 ==> after.last_row == before.last_row,
        after.index == before.index && after.limits == before.limits && after.failure == before.failure
            && after.header == before.header,
{
}

/// A run is broken by what went wrong on disk, and by ranges that are no longer those it was looked over
/// against; by nothing else.
pub proof fn what_breaks_a_run(run: Run, limits: Seq<Limit>)
    ensures
        run.broken(limits) is None <==> run.failure is None && run.limits@ == limits,
        run.failure matches Some(why) ==> run.broken(limits) == Some(why@),
{
}

/// What tasks reserve adds up, and one that is left out of the account counts for nothing.
pub proof fn reservations_add_up(metas: Seq<Meta>, meta: Meta, excluding: Option<Seq<char>>)
    ensures
        reserved_by(Seq::empty(), excluding) == 0,
        excluding != Some(meta.id@) ==> reserved_by(metas.push(meta), excluding) == reserved_by(
            metas,
            excluding,
        ) + meta.reserved(),
        excluding == Some(meta.id@) ==> reserved_by(metas.push(meta), excluding) == reserved_by(
            metas,
            excluding,
        ),
{
    assert(metas.push(meta).drop_last() =~= metas);
}

} // verus!
