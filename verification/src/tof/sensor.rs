//! Bringing the depth sensor up, whichever of its two generations is fitted.
//!
//! The two are interchangeable on the board and differ only in firmware and driver. An ID read
//! decides which driver to use before any firmware is uploaded: uploading the wrong blob is how
//! you brick a probe. The caller makes the calls into the driver; what they answer decides here.

use crate::tof::{Frame, COLS, ROWS, ZONES};
use vstd::prelude::*;

verus! {

/// Which sensor answered the ID probe.
#[derive(Debug, Clone, Copy, PartialEq, Eq, Structural)]
pub enum Generation {
    L8cx,
    /// The older sensor.
    L5cx,
    /// Something answered, but not with an ID either driver knows.
    Unknown { device_id: u8, revision_id: u8 },
}

/// Which driver to call.
#[derive(Debug, Clone, Copy, PartialEq, Eq, Structural)]
pub enum Driver {
    L5,
    L8,
}

impl Generation {
    /// The generation that a pair of IDs stands for. The revision byte decides.
    pub open spec fn of_ids(device_id: u8, revision_id: u8) -> Generation {
        if revision_id == 0x0C {
            Generation::L8cx
        } else if revision_id == 0x02 {
            Generation::L5cx
        } else {
            Generation::Unknown { device_id, revision_id }
        }
    }

    pub fn from_ids(device_id: u8, revision_id: u8) -> (g: Self)
        ensures
            g == Generation::of_ids(device_id, revision_id),
    {
        if revision_id == 0x0C {
            Generation::L8cx
        } else if revision_id == 0x02 {
            Generation::L5cx
        } else {
            Generation::Unknown { device_id, revision_id }
        }
    }

    pub fn as_str(&self) -> (name: &'static str)
        ensures
            name@ == (match *self {
                Generation::L8cx => "VL53L8CX"@,
                Generation::L5cx => "VL53L5CX"@,
                Generation::Unknown { .. } => "unknown"@,
            }),
    {
        match self {
            Generation::L8cx => "VL53L8CX",
            Generation::L5cx => "VL53L5CX",
            Generation::Unknown { .. } => "unknown",
        }
    }

    /// The driver a generation goes through.
    pub open spec fn driven_by(self) -> Option<Driver> {
        match self {
            Generation::L8cx => Some(Driver::L8),
            Generation::L5cx => Some(Driver::L5),
            Generation::Unknown { .. } => None,
        }
    }

    /// The driver this generation goes through. `None` for one neither driver knows: an unknown
    /// sensor gets no firmware.
    pub fn driver(&self) -> (driver: Option<Driver>)
        ensures
            driver == self.driven_by(),
    {
        match self {
            Generation::L8cx => Some(Driver::L8),
            Generation::L5cx => Some(Driver::L5),
            Generation::Unknown { .. } => None,
        }
    }
}

/// The one sensor a process may have open: the drivers keep their state in one place, and a
/// second sensor would quietly share and corrupt it.
pub struct Claim {
    pub taken: bool,
}

/// Why a sensor did not come up.
#[derive(Debug, Clone, Copy, PartialEq, Eq, Structural)]
pub enum OpenError {
    /// A sensor is already open in this process.
    AlreadyOpen,
    /// Nothing answered the probe.
    NothingAnswered,
    /// What answered is neither generation.
    Neither { device_id: u8, revision_id: u8 },
    /// The device cannot be opened.
    CannotOpen,
    /// It stopped answering between the probe and the handshake.
    StoppedAnswering(Generation),
    /// The firmware upload failed, with the driver's status.
    UploadFailed { generation: Generation, status: i32 },
}

/// A sensor being brought up.
#[derive(Debug, Clone, Copy, PartialEq, Eq, Structural)]
pub enum Bringup {
    /// Probe the bus for an ID.
    Probe,
    /// Open the device with this driver.
    Open(Generation, Driver),
    /// Ask whether the opened device is alive.
    Handshake(Generation, Driver),
    /// Upload the firmware.
    Upload(Generation, Driver),
}

/// What the last step answered.
#[derive(Debug, Clone, Copy, PartialEq, Eq, Structural)]
pub struct Answer {
    /// The driver's return code.
    pub code: i32,
    /// What the probe read.
    pub device_id: u8,
    pub revision_id: u8,
}

/// What comes of a step.
#[derive(Debug, Clone, Copy, PartialEq, Eq, Structural)]
pub enum Outcome {
    /// Do this next.
    Next(Bringup),
    /// The sensor is up.
    Up(Generation, Driver),
    /// It is not, and the caller closes the device first where `close` says so.
    Failed { error: OpenError, close: bool },
}

/// What an answer to a step comes to.
pub open spec fn stepped(step: Bringup, answer: Answer) -> Outcome {
    match step {
        Bringup::Probe => if answer.code != 0 {
            Outcome::Failed { error: OpenError::NothingAnswered, close: false }
        } else {
            let generation = Generation::of_ids(answer.device_id, answer.revision_id);
            match generation.driven_by() {
                Some(driver) => Outcome::Next(Bringup::Open(generation, driver)),
                None => Outcome::Failed {
                    error: OpenError::Neither {
                        device_id: answer.device_id,
                        revision_id: answer.revision_id,
                    },
                    close: false,
                },
            }
        },
        Bringup::Open(generation, driver) => if answer.code != 0 {
            Outcome::Failed { error: OpenError::CannotOpen, close: false }
        } else {
            Outcome::Next(Bringup::Handshake(generation, driver))
        },
        Bringup::Handshake(generation, driver) => if answer.code != 1 {
            Outcome::Failed { error: OpenError::StoppedAnswering(generation), close: true }
        } else {
            Outcome::Next(Bringup::Upload(generation, driver))
        },
        Bringup::Upload(generation, driver) => if answer.code != 0 {
            Outcome::Failed {
                error: OpenError::UploadFailed { generation, status: answer.code },
                close: true,
            }
        } else {
            Outcome::Up(generation, driver)
        },
    }
}

/// An open, initialised sensor, ranging or not.
pub struct Sensor {
    generation: Generation,
    driver: Driver,
    ranging: bool,
}

/// A driver call on an open sensor failed, with the driver's status.
#[derive(Debug, Clone, Copy, PartialEq, Eq, Structural)]
pub enum SensorError {
    StartFailed { hz: u8, status: i32 },
    StoppedAnswering,
    ReadFailed { status: i32 },
}

impl Sensor {
    pub closed spec fn is(self) -> (Generation, Driver, bool) {
        (self.generation, self.driver, self.ranging)
    }

    /// What every sensor keeps to: its driver is its generation's.
    pub open spec fn valid(self) -> bool {
        self.is().0.driven_by() == Some(self.is().1)
    }

    /// Claims the process's one sensor and says what to do first.
    pub fn open(claim: &mut Claim) -> (first: Result<Bringup, OpenError>)
        ensures
            final(claim).taken,
            first == (if old(claim).taken {
                Err(OpenError::AlreadyOpen)
            } else {
                Ok(Bringup::Probe)
            }),
    {
        if claim.taken {
            return Err(OpenError::AlreadyOpen);
        }
        claim.taken = true;
        Ok(Bringup::Probe)
    }

    /// Goes on after a step of bringing the sensor up. A failure releases the claim, or one failed
    /// attempt would refuse every retry for the life of the process.
    pub fn step(claim: &mut Claim, step: Bringup, answer: Answer) -> (outcome: Outcome)
        ensures
            outcome == stepped(step, answer),
            final(claim).taken == (if outcome is Failed {
                false
            } else {
                old(claim).taken
            }),
    {
        let outcome = match step {
            Bringup::Probe => {
                if answer.code != 0 {
                    Outcome::Failed { error: OpenError::NothingAnswered, close: false }
                } else {
                    let generation = Generation::from_ids(answer.device_id, answer.revision_id);
                    match generation.driver() {
                        Some(driver) => Outcome::Next(Bringup::Open(generation, driver)),
                        None => Outcome::Failed {
                            error: OpenError::Neither {
                                device_id: answer.device_id,
                                revision_id: answer.revision_id,
                            },
                            close: false,
                        },
                    }
                }
            },
            Bringup::Open(generation, driver) => {
                if answer.code != 0 {
                    Outcome::Failed { error: OpenError::CannotOpen, close: false }
                } else {
                    Outcome::Next(Bringup::Handshake(generation, driver))
                }
            },
            Bringup::Handshake(generation, driver) => {
                if answer.code != 1 {
                    Outcome::Failed { error: OpenError::StoppedAnswering(generation), close: true }
                } else {
                    Outcome::Next(Bringup::Upload(generation, driver))
                }
            },
            Bringup::Upload(generation, driver) => {
                if answer.code != 0 {
                    Outcome::Failed {
                        error: OpenError::UploadFailed { generation, status: answer.code },
                        close: true,
                    }
                } else {
                    Outcome::Up(generation, driver)
                }
            },
        };
        match outcome {
            Outcome::Failed { .. } => {
                claim.taken = false;
            },
            _ => {},
        }
        outcome
    }

    /// The sensor that came up.
    pub fn up(generation: Generation, driver: Driver) -> (sensor: Self)
        requires
            generation.driven_by() == Some(driver),
        ensures
            sensor.valid(),
            sensor.is() == (generation, driver, false),
    {
        Sensor { generation, driver, ranging: false }
    }

    pub fn generation(&self) -> (g: Generation)
        ensures
            g == self.is().0,
    {
        self.generation
    }

    pub fn driver(&self) -> (d: Driver)
        ensures
            d == self.is().1,
    {
        self.driver
    }

    /// Ranging was asked to start at `hz`; `status` is what the driver said.
    pub fn start(&mut self, hz: u8, status: i32) -> (started: Result<(), SensorError>)
        ensures
            if status == 0 {
                started is Ok && final(self).is() == (old(self).is().0, old(self).is().1, true)
            } else {
                started == Err::<(), SensorError>(SensorError::StartFailed { hz, status })
                    && final(self).is() == old(self).is()
            },
    {
        if status != 0 {
            return Err(SensorError::StartFailed { hz, status });
        }
        self.ranging = true;
        Ok(())
    }

    /// Whether a new frame is ready, from what the driver said. An error is a bus error, which
    /// means that the sensor went away rather than "not yet".
    pub fn data_ready(&self, code: i32) -> (ready: Result<bool, SensorError>)
        ensures
            ready == (if code == 1 {
                Ok::<bool, SensorError>(true)
            } else if code == 0 {
                Ok(false)
            } else {
                Err(SensorError::StoppedAnswering)
            }),
    {
        if code == 1 {
            Ok(true)
        } else if code == 0 {
            Ok(false)
        } else {
            Err(SensorError::StoppedAnswering)
        }
    }

    /// The frame the driver filled in, or its failure.
    pub fn read_frame(&mut self, code: i32, distance_mm: Vec<i16>, status: Vec<u8>) -> (frame: Result<
        Frame,
        SensorError,
    >)
        requires
            distance_mm@.len() == ZONES,
            status@.len() == ZONES,
        ensures
            final(self).is() == old(self).is(),
            match frame {
                Ok(f) => code == 0 && f.rows == ROWS && f.cols == COLS && f.distance_mm@ == distance_mm@
                    && f.status@ == status@,
                Err(e) => code != 0 && e == (SensorError::ReadFailed { status: code }),
            },
    {
        if code != 0 {
            return Err(SensorError::ReadFailed { status: code });
        }
        Ok(Frame { rows: ROWS as u8, cols: COLS as u8, distance_mm, status })
    }

    /// Gives the sensor up: says whether ranging must be stopped before the device is closed, and
    /// releases the claim.
    pub fn close(self, claim: &mut Claim) -> (stop: bool)
        ensures
            stop == self.is().2,
            !final(claim).taken,
    {
        claim.taken = false;
        self.ranging
    }
}

/// However bringing a sensor up ends, only a known generation is ever opened or sent firmware,
/// and always through its own driver.
pub proof fn no_firmware_for_strangers(step: Bringup, answer: Answer)
    requires
        step matches Bringup::Open(g, d) ==> g.driven_by() == Some(d),
        step matches Bringup::Handshake(g, d) ==> g.driven_by() == Some(d),
        step matches Bringup::Upload(g, d) ==> g.driven_by() == Some(d),
    ensures
        stepped(step, answer) matches Outcome::Next(Bringup::Open(g, d)) ==> g.driven_by() == Some(d),
        stepped(step, answer) matches Outcome::Next(Bringup::Handshake(g, d)) ==> g.driven_by() == Some(d),
        stepped(step, answer) matches Outcome::Next(Bringup::Upload(g, d)) ==> g.driven_by() == Some(d),
        stepped(step, answer) matches Outcome::Up(g, d) ==> g.driven_by() == Some(d),
        !(stepped(step, answer) matches Outcome::Next(Bringup::Probe)),
{
}

/// The revision byte tells the generations apart, whatever the device byte says, and each has its own
/// driver.
pub proof fn a_revision_is_a_generation(device_id: u8, revision_id: u8)
    ensures
        Generation::of_ids(device_id, revision_id) == Generation::L8cx <==> revision_id == 0x0C,
        Generation::of_ids(device_id, revision_id) == Generation::L5cx <==> revision_id == 0x02,
        Generation::of_ids(device_id, revision_id) is Unknown ==> Generation::of_ids(device_id, revision_id) == (
        Generation::Unknown { device_id, revision_id }),
        Generation::L8cx.driven_by() == Some(Driver::L8),
        Generation::L5cx.driven_by() == Some(Driver::L5),
        Generation::of_ids(device_id, revision_id) is Unknown ==> Generation::of_ids(
            device_id,
            revision_id,
        ).driven_by() is None,
{
}

/// A sensor comes up in four steps: it is found, opened, heard, and sent its firmware. A probe, an
/// opening and an upload answer zero, a handshake one; any other answer ends it there, and a device
/// that was opened is then closed.
pub proof fn how_a_sensor_comes_up(generation: Generation, driver: Driver, answer: Answer)
    ensures
        answer.code == 0 && answer.revision_id == 0x0C ==> stepped(Bringup::Probe, answer) == Outcome::Next(
            Bringup::Open(Generation::L8cx, Driver::L8),
        ),
        answer.code == 0 && answer.revision_id == 0x02 ==> stepped(Bringup::Probe, answer) == Outcome::Next(
            Bringup::Open(Generation::L5cx, Driver::L5),
        ),
        answer.code == 0 && answer.revision_id != 0x0C && answer.revision_id != 0x02 ==> stepped(
            Bringup::Probe,
            answer,
        ) == (Outcome::Failed {
            error: OpenError::Neither { device_id: answer.device_id, revision_id: answer.revision_id },
            close: false,
        }),
        answer.code != 0 ==> stepped(Bringup::Probe, answer) == (Outcome::Failed {
            error: OpenError::NothingAnswered,
            close: false,
        }),
        answer.code == 0 ==> stepped(Bringup::Open(generation, driver), answer) == Outcome::Next(
            Bringup::Handshake(generation, driver),
        ),
        answer.code != 0 ==> stepped(Bringup::Open(generation, driver), answer) == (Outcome::Failed {
            error: OpenError::CannotOpen,
            close: false,
        }),
        answer.code == 1 ==> stepped(Bringup::Handshake(generation, driver), answer) == Outcome::Next(
            Bringup::Upload(generation, driver),
        ),
        answer.code != 1 ==> stepped(Bringup::Handshake(generation, driver), answer) == (Outcome::Failed {
            error: OpenError::StoppedAnswering(generation),
            close: true,
        }),
        answer.code == 0 ==> stepped(Bringup::Upload(generation, driver), answer) == Outcome::Up(
            generation,
            driver,
        ),
        answer.code != 0 ==> stepped(Bringup::Upload(generation, driver), answer) == (Outcome::Failed {
            error: OpenError::UploadFailed { generation, status: answer.code },
            close: true,
        }),
{
}

} // verus!
