use vstd::prelude::*;

use crate::text::{decimal_int_bytes, push_decimal_bytes};

verus! {

/// A value that can be formatted as a decimal integer
pub trait PrintableInteger: Copy {
    /// The integer that the value is.
    spec fn number(&self) -> int;

    /// Appends the decimal numeral of the value to `out`: the digits
    /// without leading zeros, after a `-` where the value is negative.
    fn write_to(self, out: &mut Vec<u8>)
        ensures
            final(out)@ == old(out)@ + decimal_int_bytes(self.number()),
    ;
}

impl PrintableInteger for u8 {
    open spec fn number(&self) -> int {
        *self as int
    }

    fn write_to(self, out: &mut Vec<u8>) {
        push_decimal_bytes(out, self as u128);
    }
}

impl PrintableInteger for u16 {
    open spec fn number(&self) -> int {
        *self as int
    }

    fn write_to(self, out: &mut Vec<u8>) {
        push_decimal_bytes(out, self as u128);
    }
}

impl PrintableInteger for u32 {
    open spec fn number(&self) -> int {
        *self as int
    }

    fn write_to(self, out: &mut Vec<u8>) {
        push_decimal_bytes(out, self as u128);
    }
}

impl PrintableInteger for u64 {
    open spec fn number(&self) -> int {
        *self as int
    }

    fn write_to(self, out: &mut Vec<u8>) {
        push_decimal_bytes(out, self as u128);
    }
}

impl PrintableInteger for u128 {
    open spec fn number(&self) -> int {
        *self as int
    }

    fn write_to(self, out: &mut Vec<u8>) {
        push_decimal_bytes(out, self as u128);
    }
}

impl PrintableInteger for usize {
    open spec fn number(&self) -> int {
        *self as int
    }

    fn write_to(self, out: &mut Vec<u8>) {
        push_decimal_bytes(out, self as u128);
    }
}

impl PrintableInteger for i8 {
    open spec fn number(&self) -> int {
        *self as int
    }

    fn write_to(self, out: &mut Vec<u8>) {
        if self < 0 {
            out.push(45);
            push_decimal_bytes(out, (-(self as i128)) as u128);
        } else {
            push_decimal_bytes(out, self as u128);
        }
    }
}

impl PrintableInteger for i16 {
    open spec fn number(&self) -> int {
        *self as int
    }

    fn write_to(self, out: &mut Vec<u8>) {
        if self < 0 {
            out.push(45);
            push_decimal_bytes(out, (-(self as i128)) as u128);
        } else {
            push_decimal_bytes(out, self as u128);
        }
    }
}

impl PrintableInteger for i32 {
    open spec fn number(&self) -> int {
        *self as int
    }

    fn write_to(self, out: &mut Vec<u8>) {
        if self < 0 {
            out.push(45);
            push_decimal_bytes(out, (-(self as i128)) as u128);
        } else {
            push_decimal_bytes(out, self as u128);
        }
    }
}

impl PrintableInteger for i64 {
    open spec fn number(&self) -> int {
        *self as int
    }

    fn write_to(self, out: &mut Vec<u8>) {
        if self < 0 {
            out.push(45);
            push_decimal_bytes(out, (-(self as i128)) as u128);
        } else {
            push_decimal_bytes(out, self as u128);
        }
    }
}

impl PrintableInteger for i128 {
    open spec fn number(&self) -> int {
        *self as int
    }

    fn write_to(self, out: &mut Vec<u8>) {
        if self < 0 {
            out.push(45);
            if self == i128::MIN {
                push_decimal_bytes(out, 170141183460469231731687303715884105728u128);
            } else {
                push_decimal_bytes(out, (-self) as u128);
            }
        } else {
            push_decimal_bytes(out, self as u128);
        }
    }
}

impl PrintableInteger for isize {
    open spec fn number(&self) -> int {
        *self as int
    }

    fn write_to(self, out: &mut Vec<u8>) {
        if self < 0 {
            out.push(45);
            push_decimal_bytes(out, (-(self as i128)) as u128);
        } else {
            push_decimal_bytes(out, self as u128);
        }
    }
}

} // verus!
