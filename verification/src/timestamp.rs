//! Calendar timestamps as the metadata formats store them.
//!
//! A timestamp is a date and a time of day without a time zone. It renders as
//! `YYYY:MM:DD HH:MM:SS`, every field zero-padded to its width.

use vstd::prelude::*;

verus! {

/// The mathematical value of a [`NormalizedTimestamp`].
pub struct Calendar {
    pub year: int,
    pub month: int,
    pub day: int,
    pub hour: int,
    pub minute: int,
    pub second: int,
}

/// Whether `year` has a 29th of February.
pub open spec fn is_leap(year: int) -> bool {
    year % 4 == 0 && (year % 100 != 0 || year % 400 == 0)
}

/// The number of days of a month; zero where `month` is no month.
pub open spec fn days_in_month(year: int, month: int) -> int {
    if month == 1 || month == 3 || month == 5 || month == 7 || month == 8 || month == 10 || month
        == 12 {
        31
    } else if month == 4 || month == 6 || month == 9 || month == 11 {
        30
    } else if month == 2 {
        if is_leap(year) {
            29
        } else {
            28
        }
    } else {
        0
    }
}

impl Calendar {
    /// Every field lies in its calendar range, the year in four digits.
    pub open spec fn valid(self) -> bool {
        &&& 0 <= self.year <= 9999
        &&& 1 <= self.month <= 12
        &&& 1 <= self.day <= days_in_month(self.year, self.month)
        &&& 0 <= self.hour <= 23
        &&& 0 <= self.minute <= 59
        &&& 0 <= self.second <= 59
    }

    /// The nineteen characters `YYYY:MM:DD HH:MM:SS`.
    #[verifier::opaque]
    pub open spec fn rendered(self) -> Seq<u8> {
        seq![
            digit(self.year / 1000),
            digit(self.year / 100),
            digit(self.year / 10),
            digit(self.year),
            0x3Au8,
            digit(self.month / 10),
            digit(self.month),
            0x3Au8,
            digit(self.day / 10),
            digit(self.day),
            0x20u8,
            digit(self.hour / 10),
            digit(self.hour),
            0x3Au8,
            digit(self.minute / 10),
            digit(self.minute),
            0x3Au8,
            digit(self.second / 10),
            digit(self.second),
        ]
    }

    /// The rendered timestamp with its terminating null: the twenty bytes of
    /// a date value.
    pub open spec fn field(self) -> Seq<u8> {
        self.rendered().push(0u8)
    }
}

/// The character of the last decimal digit of `n`.
#[verifier::opaque]
pub open spec fn digit(n: int) -> u8 {
    (0x30 + n % 10) as u8
}

/// A date and a time of day, every field in its calendar range.
#[derive(Clone, Copy, Debug, PartialEq, Eq, Structural)]
pub struct NormalizedTimestamp {
    year: u16,
    month: u8,
    day: u8,
    hour: u8,
    minute: u8,
    second: u8,
}

impl View for NormalizedTimestamp {
    type V = Calendar;

    closed spec fn view(&self) -> Calendar {
        Calendar {
            year: self.year as int,
            month: self.month as int,
            day: self.day as int,
            hour: self.hour as int,
            minute: self.minute as int,
            second: self.second as int,
        }
    }
}

/// The number of days of a month of a year.
pub fn month_length(year: u16, month: u8) -> (r: u8)
    ensures
        r == days_in_month(year as int, month as int),
{
    if month == 1 || month == 3 || month == 5 || month == 7 || month == 8 || month == 10 || month
        == 12 {
        31
    } else if month == 4 || month == 6 || month == 9 || month == 11 {
        30
    } else if month == 2 {
        if year % 4 == 0 && (year % 100 != 0 || year % 400 == 0) {
            29
        } else {
            28
        }
    } else {
        0
    }
}

fn digit_of(n: u16) -> (r: u8)
    ensures
        r == digit(n as int),
{
    reveal(digit);
    0x30 + (n % 10) as u8
}

impl NormalizedTimestamp {
    #[verifier::type_invariant]
    spec fn inv(self) -> bool {
        self@.valid()
    }

    /// A timestamp from its fields, or `None` where a field is out of its
    /// calendar range.
    pub fn new(year: i32, month: u32, day: u32, hour: u32, minute: u32, second: u32) -> (r: Option<
        NormalizedTimestamp,
    >)
        ensures
            r is Some <==> (Calendar {
                year: year as int,
                month: month as int,
                day: day as int,
                hour: hour as int,
                minute: minute as int,
                second: second as int,
            }).valid(),
            r matches Some(ts) ==> ts@ == (Calendar {
                year: year as int,
                month: month as int,
                day: day as int,
                hour: hour as int,
                minute: minute as int,
                second: second as int,
            }),
    {
        if year < 0 || year > 9999 || month < 1 || month > 12 || hour > 23 || minute > 59 || second
            > 59 {
            return None;
        }
        if day < 1 || day > month_length(year as u16, month as u8) as u32 {
            return None;
        }
        Some(
            NormalizedTimestamp {
                year: year as u16,
                month: month as u8,
                day: day as u8,
                hour: hour as u8,
                minute: minute as u8,
                second: second as u8,
            },
        )
    }

    /// The year, from 0 to 9999.
    pub fn year(&self) -> (r: u16)
        ensures
            r == self@.year,
            self@.valid(),
    {
        proof {
            use_type_invariant(self);
        }
        self.year
    }

    /// The month, from 1 to 12.
    pub fn month(&self) -> (r: u8)
        ensures
            r == self@.month,
            self@.valid(),
    {
        proof {
            use_type_invariant(self);
        }
        self.month
    }

    /// The day of the month, from 1.
    pub fn day(&self) -> (r: u8)
        ensures
            r == self@.day,
            self@.valid(),
    {
        proof {
            use_type_invariant(self);
        }
        self.day
    }

    /// The hour, from 0 to 23.
    pub fn hour(&self) -> (r: u8)
        ensures
            r == self@.hour,
            self@.valid(),
    {
        proof {
            use_type_invariant(self);
        }
        self.hour
    }

    /// The minute, from 0 to 59.
    pub fn minute(&self) -> (r: u8)
        ensures
            r == self@.minute,
            self@.valid(),
    {
        proof {
            use_type_invariant(self);
        }
        self.minute
    }

    /// The second, from 0 to 59.
    pub fn second(&self) -> (r: u8)
        ensures
            r == self@.second,
            self@.valid(),
    {
        proof {
            use_type_invariant(self);
        }
        self.second
    }

    /// The timestamp as `YYYY:MM:DD HH:MM:SS`.
    pub fn render(&self) -> (r: Vec<u8>)
        ensures
            r@ == self@.rendered(),
            r@.len() == 19,
    {
        proof {
            use_type_invariant(self);
        }
        let mut out: Vec<u8> = Vec::new();
        out.push(digit_of(self.year / 1000));
        out.push(digit_of(self.year / 100));
        out.push(digit_of(self.year / 10));
        out.push(digit_of(self.year));
        out.push(0x3A);
        out.push(digit_of(self.month as u16 / 10));
        out.push(digit_of(self.month as u16));
        out.push(0x3A);
        out.push(digit_of(self.day as u16 / 10));
        out.push(digit_of(self.day as u16));
        out.push(0x20);
        out.push(digit_of(self.hour as u16 / 10));
        out.push(digit_of(self.hour as u16));
        out.push(0x3A);
        out.push(digit_of(self.minute as u16 / 10));
        out.push(digit_of(self.minute as u16));
        out.push(0x3A);
        out.push(digit_of(self.second as u16 / 10));
        out.push(digit_of(self.second as u16));
        reveal(Calendar::rendered);
        assert(out@ =~= self@.rendered());
        out
    }

    /// The rendered timestamp followed by a null byte.
    pub fn to_field(&self) -> (r: Vec<u8>)
        ensures
            r@ == self@.field(),
            r@.len() == 20,
    {
        let mut out = self.render();
        out.push(0);
        out
    }
}

/// A rendered timestamp has nineteen bytes, a date value twenty.
pub proof fn lemma_field_length(c: Calendar)
    ensures
        c.rendered().len() == 19,
        c.field().len() == 20,
{
    reveal(Calendar::rendered);
}

} // verus!
