//! The command line of the viewer.
use vstd::prelude::*;

verus! {

/// The frames of a capture without another count.
pub const CAPTURE_FRAMES: u32 = 400;

/// `p` is the first place of `key` among the arguments.
pub open spec fn first_at(args: Seq<String>, key: Seq<char>, p: int) -> bool {
    &&& 0 <= p < args.len()
    &&& args[p]@ == key
    &&& forall|q: int| 0 <= q < p ==> (#[trigger] args[q])@ != key
}

/// The key is not among the arguments.
pub open spec fn lacks(args: Seq<String>, key: Seq<char>) -> bool {
    forall|q: int| 0 <= q < args.len() ==> (#[trigger] args[q])@ != key
}

/// The argument after the first place of the key, where there is one.
pub open spec fn value_after(args: Seq<String>, key: Seq<char>) -> Option<Seq<char>> {
    let p = choose|p: int| first_at(args, key, p);
    if lacks(args, key) || p + 1 >= args.len() {
        None
    } else {
        Some(args[p + 1]@)
    }
}

/// The key has one first place, or none.
pub proof fn lemma_first_unique(args: Seq<String>, key: Seq<char>, p: int, q: int)
    requires
        first_at(args, key, p),
        first_at(args, key, q),
    ensures
        p == q,
        !lacks(args, key),
{
}

/// The first place of the key.
pub fn position(args: &[String], key: &str) -> (r: Option<usize>)
    ensures
        match r {
            Some(p) => first_at(args@, key@, p as int),
            None => lacks(args@, key@),
        },
{
    let wanted: String = key.to_owned();
    let mut k: usize = 0;
    while k < args.len()
        invariant
            k <= args@.len(),
            wanted@ == key@,
            forall|q: int| 0 <= q < k ==> (#[trigger] args@[q])@ != key@,
        decreases args@.len() - k,
    {
        if args[k] == wanted {
            return Some(k);
        }
        k = k + 1;
    }
    None
}

/// The argument after the first place of the key.
pub fn arg_value(args: &[String], key: &str) -> (r: Option<String>)
    ensures
        match r {
            Some(v) => value_after(args@, key@) == Some(v@),
            None => value_after(args@, key@) is None,
        },
{
    match position(args, key) {
        None => None,
        Some(p) => {
            proof {
                let first: int = choose|q: int| first_at(args@, key@, q);
                lemma_first_unique(args@, key@, p as int, first);
            }
            if p < args.len() - 1 {
                Some(args[p + 1].clone())
            } else {
                None
            }
        },
    }
}

pub open spec fn is_digit(c: char) -> bool {
    '0' <= c <= '9'
}

pub open spec fn all_digits(s: Seq<char>) -> bool {
    forall|i: int| 0 <= i < s.len() ==> is_digit(#[trigger] s[i])
}

/// The number that decimal digits write.
pub open spec fn decimal(s: Seq<char>) -> int
    decreases s.len(),
{
    if s.len() == 0 {
        0
    } else {
        10 * decimal(s.drop_last()) + (s.last() as int - '0' as int)
    }
}

/// The text without a plus sign before its digits.
pub open spec fn unsigned_text(s: Seq<char>) -> Seq<char> {
    if s.len() > 1 && s[0] == '+' {
        s.skip(1)
    } else {
        s
    }
}

/// The number of 32 bits that a text writes in decimal digits, with or without
/// a plus sign.
pub open spec fn parsed_u32(s: Seq<char>) -> Option<u32> {
    let digits = unsigned_text(s);
    if digits.len() > 0 && all_digits(digits) && decimal(digits) <= u32::MAX {
        Some(decimal(digits) as u32)
    } else {
        None
    }
}

/// More digits never make a number smaller.
proof fn lemma_decimal_grows(s: Seq<char>, k: int)
    requires
        all_digits(s),
        0 <= k <= s.len(),
    ensures
        0 <= decimal(s.take(k)) <= decimal(s),
    decreases s.len(),
{
    if k == s.len() {
        assert(s.take(k) =~= s);
        if s.len() > 0 {
            lemma_decimal_grows(s.drop_last(), 0);
            assert(is_digit(s[s.len() - 1]));
        }
    } else {
        assert(s.take(k) =~= s.drop_last().take(k));
        lemma_decimal_grows(s.drop_last(), k);
        assert(is_digit(s[s.len() - 1]));
    }
}

/// Reads a number of 32 bits.
pub fn parse_u32(s: &str) -> (r: Option<u32>)
    ensures
        r == parsed_u32(s@),
{
    let n: usize = s.unicode_len();
    if n == 0 {
        return None;
    }
    let start: usize = if n > 1 && s.get_char(0) == '+' {
        1
    } else {
        0
    };
    let ghost digits = unsigned_text(s@);
    assert(digits =~= s@.skip(start as int));
    let mut total: u32 = 0;
    let mut k: usize = start;
    assert(digits.take(0) =~= Seq::<char>::empty());
    while k < n
        invariant
            start <= k <= n,
            start <= 1,
            start < n,
            n == s@.len(),
            digits == s@.skip(start as int),
            digits == unsigned_text(s@),
            all_digits(digits.take(k - start)),
            total == decimal(digits.take(k - start)),
        decreases n - k,
    {
        let c: char = s.get_char(k);
        let ghost before = digits.take(k - start);
        let ghost after = digits.take(k + 1 - start);
        assert(after.drop_last() =~= before);
        assert(after.last() == c);
        if c < '0' || c > '9' {
            assert(digits[k - start] == c);
            return None;
        }
        let d: u32 = c as u32 - '0' as u32;
        assert forall|i: int| 0 <= i < after.len() implies is_digit(#[trigger] after[i]) by {
            if i < before.len() {
                assert(after[i] == before[i]);
            }
        }
        if total > (u32::MAX - d) / 10 {
            proof {
                if all_digits(digits) {
                    lemma_decimal_grows(digits, k + 1 - start);
                }
            }
            return None;
        }
        total = total * 10 + d;
        k = k + 1;
    }
    assert(digits.take(k - start) =~= digits);
    Some(total)
}

/// A picture to take without a window.
pub struct Capture {
    pub path: String,
    pub spectral: bool,
    pub frames: u32,
}

/// What the command line asks for.
pub enum Request {
    /// The window.
    Window,
    Picture(Capture),
    /// A mode that is neither `spectral` nor `rgb`.
    UnknownMode(String),
}

/// The text of an argument, or what stands for it.
pub open spec fn text_or(value: Option<Seq<char>>, other: Seq<char>) -> Seq<char> {
    match value {
        Some(v) => v,
        None => other,
    }
}

/// The frames that the arguments ask for: a count that cannot be read is no
/// count.
pub open spec fn frames_of(args: Seq<String>) -> u32 {
    match value_after(args, "--frames"@) {
        None => CAPTURE_FRAMES,
        Some(text) => match parsed_u32(text) {
            Some(n) => n,
            None => CAPTURE_FRAMES,
        },
    }
}

/// Reads the command line: `--capture <path> --mode <spectral|rgb>
/// --frames <n>` takes a picture, anything else opens the window.
pub fn read_request(args: &[String]) -> (r: Request)
    ensures
        ({
            let mode = text_or(value_after(args@, "--mode"@), "spectral"@);
            match r {
                Request::Window => lacks(args@, "--capture"@),
                Request::Picture(c) => {
                    &&& !lacks(args@, "--capture"@)
                    &&& mode == if c.spectral {
                        "spectral"@
                    } else {
                        "rgb"@
                    }
                    &&& c.path@ == text_or(
                        value_after(args@, "--capture"@),
                        "/tmp/vol6_capture.png"@,
                    )
                    &&& c.frames == frames_of(args@)
                },
                Request::UnknownMode(other) => {
                    &&& !lacks(args@, "--capture"@)
                    &&& other@ == mode
                    &&& mode != "spectral"@
                    &&& mode != "rgb"@
                },
            }
        }),
{
    let spectral: String = "spectral".to_owned();
    let rgb: String = "rgb".to_owned();
    match position(args, "--capture") {
        None => Request::Window,
        Some(_) => {
            let path: String = match arg_value(args, "--capture") {
                Some(p) => p,
                None => "/tmp/vol6_capture.png".to_owned(),
            };
            let mode: String = match arg_value(args, "--mode") {
                Some(m) => m,
                None => "spectral".to_owned(),
            };
            let frames: u32 = match arg_value(args, "--frames") {
                Some(text) => match parse_u32(text.as_str()) {
                    Some(n) => n,
                    None => CAPTURE_FRAMES,
                },
                None => CAPTURE_FRAMES,
            };
            if mode == spectral {
                Request::Picture(Capture { path, spectral: true, frames })
            } else if mode == rgb {
                Request::Picture(Capture { path, spectral: false, frames })
            } else {
                Request::UnknownMode(mode)
            }
        },
    }
}

} // verus!
