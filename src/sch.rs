//! The scheduler: publishes the rate ticks that pace the other applications.
use vstd::prelude::*;

use crate::bus::{bus_publish, BusView, Cfe};
use crate::msg::{kind_of, SbMsgData, SchOut};
use crate::perf::entered;
use crate::wire::enc_data;

verus! {

/// Publishing `d` where `due` holds.
pub open spec fn publish_if(b: BusView, due: bool, d: SbMsgData) -> BusView {
    if due {
        bus_publish(b, kind_of(d), enc_data(d))
    } else {
        b
    }
}

/// The ticks of cycle `counter` of a 100 Hz loop: 100 Hz every cycle, then
/// 50, 25, 10 (with the scheduler's output), 5 and 1 Hz where due.
pub open spec fn sch_cycle(b: BusView, counter: u32, out: SchOut) -> BusView {
    let b1 = bus_publish(b, kind_of(SbMsgData::Sch100Hz), enc_data(SbMsgData::Sch100Hz));
    let b2 = publish_if(b1, counter % 2 == 0, SbMsgData::Sch50Hz);
    let b3 = publish_if(b2, counter % 4 == 0, SbMsgData::Sch25Hz);
    let b4 = publish_if(b3, counter % 10 == 0, SbMsgData::Sch10Hz);
    let b5 = publish_if(b4, counter % 10 == 0, SbMsgData::SchOut(out));
    let b6 = publish_if(b5, counter % 20 == 0, SbMsgData::Sch5Hz);
    publish_if(b6, counter % 100 == 0, SbMsgData::Sch1Hz)
}

/// The scheduler application: its bus, its output and its cycle count.
pub struct Sch {
    pub cf: Cfe,
    pub out: SchOut,
    pub counter: u32,
}

impl Sch {
    /// One cycle at `now`: starts the timing figures, publishes the ticks
    /// due, and counts the cycle. Returns whether the bus is to be polled
    /// in this cycle (every fourth one).
    #[verifier::rlimit(60)]
    pub fn cycle(&mut self, now: u64) -> (poll: bool)
        ensures
            final(self).out.perf == entered(old(self).out.perf, now),
            final(self).cf@ == sch_cycle(old(self).cf@, old(self).counter, final(self).out),
            final(self).counter == if old(self).counter == u32::MAX {
                0
            } else {
                (old(self).counter + 1) as u32
            },
            poll == (old(self).counter % 4 == 0),
    {
        self.out.perf.enter(now);
        let c = self.counter;
        self.cf.send_message(SbMsgData::Sch100Hz);
        if c % 2 == 0 {
            self.cf.send_message(SbMsgData::Sch50Hz);
        }
        if c % 4 == 0 {
            self.cf.send_message(SbMsgData::Sch25Hz);
        }
        if c % 10 == 0 {
            self.cf.send_message(SbMsgData::Sch10Hz);
            self.cf.send_message(SbMsgData::SchOut(self.out));
        }
        if c % 20 == 0 {
            self.cf.send_message(SbMsgData::Sch5Hz);
        }
        if c % 100 == 0 {
            self.cf.send_message(SbMsgData::Sch1Hz);
        }
        self.counter = self.counter.wrapping_add(1);
        c % 4 == 0
    }
}

} // verus!
