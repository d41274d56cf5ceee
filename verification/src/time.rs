//! Time keeping: the interval timer's programming, the tick counter, and
//! the decoding of the real-time clock's registers.

use crate::text::{decimal, push_number};
use vstd::prelude::*;
use vstd::string::StringExecFns;

verus! {

/// Divider programmed into channel 0 of the interval timer; it yields a
/// tick of about one millisecond.
pub const PIT_DIVIDER: u16 = 1193;

/// Mode byte for channel 0: low then high byte access, square wave, binary.
pub const PIT_MODE: u8 = 0x36;

/// Command port of the interval timer.
pub const PIT_COMMAND_PORT: u16 = 0x43;

/// Data port of channel 0 of the interval timer.
pub const PIT_DATA_PORT: u16 = 0x40;

/// Index port of the real-time clock.
pub const CMOS_INDEX_PORT: u16 = 0x70;

/// Data port of the real-time clock.
pub const CMOS_DATA_PORT: u16 = 0x71;

/// The port writes that program the interval timer, in order: the mode
/// byte to the command port, then the low and the high byte of the divider
/// to the data port.
pub fn init() -> (writes: [(u16, u8); 3])
    ensures
        writes[0] == (0x43u16, 0x36u8),
        writes[1] == (0x40u16, 0xA9u8),
        writes[2] == (0x40u16, 0x04u8),
        writes[1].1 as int + 256 * writes[2].1 as int == PIT_DIVIDER,
{
    let low = (PIT_DIVIDER & 0xff) as u8;
    let high = (PIT_DIVIDER >> 8) as u8;
    assert((1193u16 & 0xff) == 0xA9 && (1193u16 >> 8) == 0x04) by (bit_vector);
    [(PIT_COMMAND_PORT, PIT_MODE), (PIT_DATA_PORT, low), (PIT_DATA_PORT, high)]
}

/// Counts one timer interrupt: the tick counter advances by 2, wrapping
/// around at the end of its range.
pub fn handle_pit_interrupt(ticks: &mut usize)
    ensures
        *final(ticks) == if *old(ticks) + 2 > usize::MAX {
            (*old(ticks) + 2 - usize::MAX - 1) as usize
        } else {
            (*old(ticks) + 2) as usize
        },
{
    *ticks = ticks.wrapping_add(2);
}

/// Whether a wait of `nanoseconds` that began at cycle count `start` is
/// over at cycle count `now`. The counter may have wrapped around in
/// between.
pub fn wait_nano(start: u64, now: u64, nanoseconds: u64) -> (done: bool)
    ensures
        done == ((if now >= start {
            now - start
        } else {
            now + 0x1_0000_0000_0000_0000 - start
        }) >= nanoseconds),
{
    now.wrapping_sub(start) >= nanoseconds
}

/// The registers of the real-time clock that make up a date and time, in
/// the order they are read: seconds, minutes, hours, weekday, day, month,
/// year, and status register B.
pub fn clock_registers() -> (regs: [u8; 8])
    ensures
        regs@ == seq![0x00u8, 0x02u8, 0x04u8, 0x06u8, 0x07u8, 0x08u8, 0x09u8, 0x0Bu8],
{
    let regs = [0x00u8, 0x02, 0x04, 0x06, 0x07, 0x08, 0x09, 0x0B];
    assert(regs@ =~= seq![0x00u8, 0x02u8, 0x04u8, 0x06u8, 0x07u8, 0x08u8, 0x09u8, 0x0Bu8]);
    regs
}

/// The value of a register that holds two decimal digits, one per nibble.
pub open spec fn bcd(v: u8) -> u8 {
    ((v & 0x0F) + (v / 16) * 10) as u8
}

/// The value of the hour register in decimal-digit form: two digits in the
/// low seven bits, and the PM flag kept in the top bit.
pub open spec fn bcd_hour(v: u8) -> u8 {
    (((v & 0x0F) + ((v & 0x70) / 16) * 10) as u8) | (v & 0x80)
}

/// The hour of the day that an hour value stands for: in 12-hour mode a
/// set PM flag adds twelve hours, modulo 24.
pub open spec fn hour_of_day(hour: u8, status_b: u8) -> u8 {
    if status_b & 0x02 == 0 && hour & 0x80 != 0 {
        (((hour & 0x7F) + 12) % 24) as u8
    } else {
        hour
    }
}

/// What the clock's registers say once decoded: `raw` holds them in the
/// order of `clock_registers`.
pub open spec fn decoded(raw: Seq<u8>) -> DateTime {
    let digits = raw[7] & 0x04 == 0;
    DateTime {
        second: if digits { bcd(raw[0]) } else { raw[0] },
        minute: if digits { bcd(raw[1]) } else { raw[1] },
        hour: hour_of_day(if digits { bcd_hour(raw[2]) } else { raw[2] }, raw[7]),
        weekday: raw[3],
        day: if digits { bcd(raw[4]) } else { raw[4] },
        month: if digits { bcd(raw[5]) } else { raw[5] },
        year: if digits { bcd(raw[6]) } else { raw[6] },
    }
}

/// A date and time of day, as the real-time clock keeps it.
#[derive(Clone, Copy, Debug, PartialEq, Eq, Structural)]
pub struct DateTime {
    pub second: u8,
    pub minute: u8,
    pub hour: u8,
    pub weekday: u8,
    pub day: u8,
    pub month: u8,
    pub year: u8,
}

/// Decodes a register that holds two decimal digits.
fn from_bcd(v: u8) -> (r: u8)
    ensures
        r == bcd(v),
{
    assert((v & 0x0F) <= 15) by (bit_vector);
    (v & 0x0F) + (v / 16) * 10
}

/// The decimal digits of `n`, with a leading zero if there is only one.
pub open spec fn two_digits(n: nat) -> Seq<char> {
    if n < 10 {
        seq!['0'] + decimal(n)
    } else {
        decimal(n)
    }
}

impl DateTime {
    /// Decodes the clock's registers, given in the order of
    /// `clock_registers`.
    ///
    /// Unless bit 2 of status register B is set, the values hold decimal
    /// digits and are converted. Unless its bit 1 is set, the clock runs in
    /// 12-hour mode and an hour with the PM flag is moved to the 24-hour
    /// scale.
    pub fn get(raw: [u8; 8]) -> (t: Self)
        ensures
            t == decoded(raw@),
    {
        let mut raw_values = raw;
        if raw_values[7] & 0x04 == 0 {
            let hour = raw_values[2];
            assert((hour & 0x0F) <= 15 && (hour & 0x70) <= 0x70) by (bit_vector);
            assert(((((hour & 0x0F) + ((hour & 0x70) / 16) * 10) as u8) | (hour & 0x80)) == bcd_hour(hour));
            raw_values[0] = from_bcd(raw_values[0]);
            raw_values[1] = from_bcd(raw_values[1]);
            raw_values[2] = ((hour & 0x0F) + ((hour & 0x70) / 16) * 10) | (hour & 0x80);
            raw_values[4] = from_bcd(raw_values[4]);
            raw_values[5] = from_bcd(raw_values[5]);
            raw_values[6] = from_bcd(raw_values[6]);
        }
        if (raw_values[7] & 0x02 == 0) && (raw_values[2] & 0x80 != 0) {
            let hour = raw_values[2];
            assert((hour & 0x7F) <= 127) by (bit_vector);
            raw_values[2] = ((hour & 0x7F) + 12) % 24;
        }
        DateTime {
            second: raw_values[0],
            minute: raw_values[1],
            hour: raw_values[2],
            weekday: raw_values[3],
            day: raw_values[4],
            month: raw_values[5],
            year: raw_values[6],
        }
    }

    /// The name of the weekday, counted from 1 for Sunday.
    pub open spec fn day_name(self) -> Seq<char> {
        if self.weekday == 1 {
            "Sunday"@
        } else if self.weekday == 2 {
            "Monday"@
        } else if self.weekday == 3 {
            "Tuesday"@
        } else if self.weekday == 4 {
            "Wednesday"@
        } else if self.weekday == 5 {
            "Thursday"@
        } else if self.weekday == 6 {
            "Friday"@
        } else if self.weekday == 7 {
            "Saturday"@
        } else {
            "Error"@
        }
    }

    /// The name of the month, counted from 1 for January.
    pub open spec fn month_name(self) -> Seq<char> {
        if self.month == 1 {
            "January"@
        } else if self.month == 2 {
            "February"@
        } else if self.month == 3 {
            "March"@
        } else if self.month == 4 {
            "April"@
        } else if self.month == 5 {
            "May"@
        } else if self.month == 6 {
            "June"@
        } else if self.month == 7 {
            "July"@
        } else if self.month == 8 {
            "August"@
        } else if self.month == 9 {
            "September"@
        } else if self.month == 10 {
            "October"@
        } else if self.month == 11 {
            "November"@
        } else if self.month == 12 {
            "December"@
        } else {
            "Error"@
        }
    }

    /// The name of the day, e.g. Monday; `Error` for a weekday outside
    /// 1..=7.
    pub fn get_day_name(&self) -> (name: &'static str)
        ensures
            name@ == self.day_name(),
    {
        match self.weekday {
            1 => "Sunday",
            2 => "Monday",
            3 => "Tuesday",
            4 => "Wednesday",
            5 => "Thursday",
            6 => "Friday",
            7 => "Saturday",
            _ => "Error",
        }
    }

    /// The name of the month, e.g. January; `Error` for a month outside
    /// 1..=12.
    pub fn get_month_name(&self) -> (name: &'static str)
        ensures
            name@ == self.month_name(),
    {
        match self.month {
            1 => "January",
            2 => "February",
            3 => "March",
            4 => "April",
            5 => "May",
            6 => "June",
            7 => "July",
            8 => "August",
            9 => "September",
            10 => "October",
            11 => "November",
            12 => "December",
            _ => "Error",
        }
    }

    /// The text `to_string` renders: hour and minute with two digits, the
    /// weekday's name, the day, the month's name, and the year after `20`.
    pub open spec fn text(self) -> Seq<char> {
        two_digits(self.hour as nat) + ":"@ + two_digits(self.minute as nat) + ", "@ + self.day_name() + " "@ + decimal(
            self.day as nat,
        ) + " "@ + self.month_name() + " 20"@ + two_digits(self.year as nat)
    }

    /// Renders the date and time, e.g. `13:50, Sunday 7 March 2021`.
    pub fn to_string(&self) -> (s: String)
        ensures
            s@ == self.text(),
    {
        let mut s = String::new();
        if self.hour < 10 {
            s.push('0');
        }
        push_number(&mut s, self.hour as u64);
        let ghost a = s@;
        assert(a =~= two_digits(self.hour as nat));
        s.append(":");
        if self.minute < 10 {
            s.push('0');
        }
        push_number(&mut s, self.minute as u64);
        let ghost b = s@;
        assert(b =~= a + ":"@ + two_digits(self.minute as nat));
        s.append(", ");
        s.append(self.get_day_name());
        s.append(" ");
        push_number(&mut s, self.day as u64);
        s.append(" ");
        s.append(self.get_month_name());
        s.append(" 20");
        let ghost c = s@;
        if self.year < 10 {
            s.push('0');
        }
        push_number(&mut s, self.year as u64);
        assert(s@ =~= c + two_digits(self.year as nat));
        s
    }
}

} // verus!
