//! What the daemon says about its sensor, for a subscriber that has just asked.
//!
//! It answers the question a viewer must not have to guess at: is there no sensor, or has it
//! simply not produced a frame yet?

use crate::tof::{COLS, ROWS};
use vstd::prelude::*;

verus! {

pub struct Status {
    hz: u8,
    /// The generation that answered, once one has.
    sensor: Option<&'static str>,
    /// Why there is none, when there is none.
    unavailable: Option<String>,
}

/// The answer to a subscription.
pub struct StreamResult {
    pub accepted: bool,
    pub sensor: Option<String>,
    pub unavailable: Option<String>,
    pub rows: u8,
    pub cols: u8,
    pub hz: u8,
}

/// What a status says: a sensor by name, or the reason why there is none.
#[verifier::ext_equal]
pub enum Says {
    Ranging(Seq<char>),
    Gone(Seq<char>),
}

impl Status {
    /// The frame rate, and what is said of the sensor.
    pub closed spec fn says(self) -> (u8, Says) {
        (
            self.hz,
            match self.sensor {
                Some(name) => Says::Ranging(name@),
                None => Says::Gone(self.unavailable->0@),
            },
        )
    }

    /// A sensor or a reason, and never both.
    pub closed spec fn valid(self) -> bool {
        self.sensor is Some <==> self.unavailable is None
    }

    /// Before the first attempt finishes, "starting" is the honest answer.
    pub fn new(hz: u8) -> (s: Self)
        ensures
            s.valid(),
            s.says() == (hz, Says::Gone("bringing the sensor up"@)),
    {
        Status { hz, sensor: None, unavailable: Some("bringing the sensor up".to_owned()) }
    }

    /// A sensor is ranging.
    pub fn up(&mut self, sensor: &'static str)
        ensures
            final(self).valid(),
            final(self).says() == (old(self).says().0, Says::Ranging(sensor@)),
    {
        self.sensor = Some(sensor);
        self.unavailable = None;
    }

    /// There is no sensor, and this is why.
    pub fn down(&mut self, why: &str)
        ensures
            final(self).valid(),
            final(self).says() == (old(self).says().0, Says::Gone(why@)),
    {
        self.sensor = None;
        self.unavailable = Some(why.to_owned());
    }

    /// The answer to a subscription. Accepted either way: frames will arrive if a sensor appears,
    /// and refusing would make a client that subscribed one second early give up for good.
    pub fn result(&self) -> (r: StreamResult)
        requires
            self.valid(),
        ensures
            r.accepted,
            r.rows == ROWS,
            r.cols == COLS,
            r.hz == self.says().0,
            match self.says().1 {
                Says::Ranging(name) => r.sensor matches Some(text) && text@ == name && r.unavailable is None,
                Says::Gone(why) => r.sensor is None && (r.unavailable matches Some(text) && text@ == why),
            },
    {
        let sensor = match self.sensor {
            Some(name) => Some(name.to_owned()),
            None => None,
        };
        let unavailable = match &self.unavailable {
            Some(why) => Some(why.clone()),
            None => None,
        };
        StreamResult {
            accepted: true,
            sensor,
            unavailable,
            rows: ROWS as u8,
            cols: COLS as u8,
            hz: self.hz,
        }
    }
}

} // verus!
