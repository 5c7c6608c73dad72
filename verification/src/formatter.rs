//! Rendering of second counts as `[Dd ]H:M:S` text.
use vstd::prelude::*;
use vstd::string::StringExecFns;

verus! {

/// The decimal digit character for `d` in 0..10.
pub open spec fn digit_char(d: int) -> char {
    if d == 0 {
        '0'
    } else if d == 1 {
        '1'
    } else if d == 2 {
        '2'
    } else if d == 3 {
        '3'
    } else if d == 4 {
        '4'
    } else if d == 5 {
        '5'
    } else if d == 6 {
        '6'
    } else if d == 7 {
        '7'
    } else if d == 8 {
        '8'
    } else {
        '9'
    }
}

/// The decimal rendering of a non-negative number, without leading
/// zeroes (except for 0 itself).
pub open spec fn dec_str(n: int) -> Seq<char>
    decreases n,
{
    if n < 10 {
        seq![digit_char(n)]
    } else {
        dec_str(n / 10).push(digit_char(n % 10))
    }
}

fn digit_str(d: u64) -> (s: &'static str)
    requires
        d < 10,
    ensures
        s@ == seq![digit_char(d as int)],
{
    if d == 0 {
        proof {
            reveal_strlit("0");
            assert(("0")@ =~= seq![digit_char(0)]);
        }
        "0"
    } else if d == 1 {
        proof {
            reveal_strlit("1");
            assert(("1")@ =~= seq![digit_char(1)]);
        }
        "1"
    } else if d == 2 {
        proof {
            reveal_strlit("2");
            assert(("2")@ =~= seq![digit_char(2)]);
        }
        "2"
    } else if d == 3 {
        proof {
            reveal_strlit("3");
            assert(("3")@ =~= seq![digit_char(3)]);
        }
        "3"
    } else if d == 4 {
        proof {
            reveal_strlit("4");
            assert(("4")@ =~= seq![digit_char(4)]);
        }
        "4"
    } else if d == 5 {
        proof {
            reveal_strlit("5");
            assert(("5")@ =~= seq![digit_char(5)]);
        }
        "5"
    } else if d == 6 {
        proof {
            reveal_strlit("6");
            assert(("6")@ =~= seq![digit_char(6)]);
        }
        "6"
    } else if d == 7 {
        proof {
            reveal_strlit("7");
            assert(("7")@ =~= seq![digit_char(7)]);
        }
        "7"
    } else if d == 8 {
        proof {
            reveal_strlit("8");
            assert(("8")@ =~= seq![digit_char(8)]);
        }
        "8"
    } else {
        proof {
            reveal_strlit("9");
            assert(("9")@ =~= seq![digit_char(9)]);
        }
        "9"
    }
}

/// The decimal rendering of `n`.
pub fn u64_to_string(n: u64) -> (s: String)
    ensures
        s@ == dec_str(n as int),
    decreases n,
{
    if n < 10 {
        digit_str(n).to_owned()
    } else {
        let mut s = u64_to_string(n / 10);
        s.append(digit_str(n % 10));
        proof {
            assert(s@ =~= dec_str(n as int));
        }
        s
    }
}

/// A second count rendered as `D`d `H:M:S`, `H:M:S` or `M:S`, the
/// leading component without padding and each later component reduced to
/// its own range.
pub open spec fn format_time_s(time: int) -> Seq<char> {
    let seconds = time % 60;
    let minutes = (time / 60) % 60;
    let hours = (time / 3600) % 24;
    let days = time / 86400;
    if days > 0 {
        dec_str(days) + seq!['d', ' '] + dec_str(hours) + seq![':'] + dec_str(minutes) + seq![':']
            + dec_str(seconds)
    } else if hours > 0 {
        dec_str(hours) + seq![':'] + dec_str(minutes) + seq![':'] + dec_str(seconds)
    } else {
        dec_str(minutes) + seq![':'] + dec_str(seconds)
    }
}

/// Renders a number of seconds as days, hours, minutes and seconds.
pub fn format_time(time: u64) -> (s: String)
    ensures
        s@ == format_time_s(time as int),
{
    let seconds: u64 = time % 60;
    let minutes: u64 = (time / 60) % 60;
    let hours: u64 = (time / 3600) % 24;
    let days: u64 = time / 86400;
    proof {
        reveal_strlit("d ");
        reveal_strlit(":");
    }
    if days > 0 {
        let mut s = u64_to_string(days);
        s.append("d ");
        let hs = u64_to_string(hours);
        s.append(hs.as_str());
        s.append(":");
        let ms = u64_to_string(minutes);
        s.append(ms.as_str());
        s.append(":");
        let ss = u64_to_string(seconds);
        s.append(ss.as_str());
        proof {
            assert(s@ =~= format_time_s(time as int));
        }
        s
    } else if hours > 0 {
        let mut s = u64_to_string(hours);
        s.append(":");
        let ms = u64_to_string(minutes);
        s.append(ms.as_str());
        s.append(":");
        let ss = u64_to_string(seconds);
        s.append(ss.as_str());
        proof {
            assert(s@ =~= format_time_s(time as int));
        }
        s
    } else {
        let mut s = u64_to_string(minutes);
        s.append(":");
        let ss = u64_to_string(seconds);
        s.append(ss.as_str());
        proof {
            assert(s@ =~= format_time_s(time as int));
        }
        s
    }
}

/// Renders a duration given in milliseconds, at second precision.
pub fn format_duration(duration: u64) -> (s: String)
    ensures
        s@ == format_time_s((duration / 1000) as int),
{
    format_time(duration / 1000)
}

} // verus!
