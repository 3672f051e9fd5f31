//! Files about running mounts: which process serves which mount directory.
use std::hash::{Hash, Hasher};

use rustc_hash::FxHasher;
use vstd::prelude::*;

use crate::model::{group_views, views};
use crate::text::{
    chars_of, decimal, decimal_chars, push_text, same_text, string_of, sub_chars,
};

verus! {

/// A path.
#[verifier::external_type_specification]
#[verifier::external_body]
pub struct ExPathBuf(std::path::PathBuf);

/// `FxHasher` on a path: a number for it. It differs between machines, so nothing is said of it.
#[verifier::external_body]
fn path_hash(path: &std::path::PathBuf) -> (hash: u64)
{
    let mut hasher = FxHasher::default();
    path.hash(&mut hasher);
    hasher.finish()
}

/// A hexadecimal digit.
pub open spec fn hex_digit(d: nat) -> char {
    if d < 10 {
        (('0' as nat) + d) as char
    } else {
        (('a' as nat) + d - 10) as char
    }
}

/// The last `width` hexadecimal digits of `n`.
pub open spec fn hex(n: nat, width: nat) -> Seq<char>
    decreases width,
{
    if width == 0 {
        Seq::empty()
    } else {
        hex(n / 16, (width - 1) as nat).push(hex_digit(n % 16))
    }
}

fn hex_char(d: u8) -> (c: char)
    requires
        d < 16,
    ensures
        c == hex_digit(d as nat),
{
    match d {
        0 => '0',
        1 => '1',
        2 => '2',
        3 => '3',
        4 => '4',
        5 => '5',
        6 => '6',
        7 => '7',
        8 => '8',
        9 => '9',
        10 => 'a',
        11 => 'b',
        12 => 'c',
        13 => 'd',
        14 => 'e',
        _ => 'f',
    }
}

fn hex_chars(n: u64, width: u8) -> (r: Vec<char>)
    ensures
        r@ == hex(n as nat, width as nat),
    decreases width,
{
    if width == 0 {
        return Vec::new();
    }
    let mut r = hex_chars(n / 16, width - 1);
    r.push(hex_char((n % 16) as u8));
    r
}

/// The name of the file with the extension `ext` about a mount directory whose path has this hash.
pub open spec fn state_name(hash: u64, ext: Seq<char>) -> Seq<char> {
    hex(hash as nat, 16).push('.') + ext
}

/// The name of the file with the extension `ext` about a mount directory whose path has this hash.
pub fn state_file_name(hash: u64, ext: &str) -> (name: String)
    ensures
        name@ == state_name(hash, ext@),
{
    let mut chars = hex_chars(hash, 16);
    chars.push('.');
    push_text(&mut chars, ext);
    string_of(&chars)
}

/// The name of the file with the extension `ext` about a mount directory.
pub fn state_file(mountpoint: &std::path::PathBuf, ext: &str) -> (name: String)
    ensures
        exists|hash: u64| name@ == #[trigger] state_name(hash, ext@),
{
    state_file_name(path_hash(mountpoint), ext)
}

/// What a process writes about the mount that it serves: its number, and the mount directory.
pub open spec fn pid_text(pid: u32, mountpoint: Seq<char>) -> Seq<char> {
    (decimal(pid as nat).push('\n') + mountpoint).push('\n')
}

/// What a process writes about the mount that it serves.
pub fn pid_file_text(pid: u32, mountpoint: &str) -> (text: String)
    ensures
        text@ == pid_text(pid, mountpoint@),
{
    let mut chars = decimal_chars(pid as u128);
    chars.push('\n');
    push_text(&mut chars, mountpoint);
    chars.push('\n');
    string_of(&chars)
}

/// The index of the first line feed, or the length.
pub open spec fn line_end(text: Seq<char>) -> int
    decreases text.len(),
{
    if text.len() == 0 {
        0
    } else if text[0] == '\n' {
        0
    } else {
        1 + line_end(text.drop_first())
    }
}

/// The first line, without its line feed, and without the carriage return before that.
pub open spec fn first_line(text: Seq<char>) -> Seq<char> {
    let end = line_end(text);
    if 0 < end < text.len() && text[end - 1] == '\r' {
        text.take(end - 1)
    } else {
        text.take(end)
    }
}

/// The number that decimal digits stand for, if they are digits.
pub open spec fn digits_value(digits: Seq<char>) -> Option<nat>
    decreases digits.len(),
{
    if digits.len() == 0 {
        Some(0)
    } else {
        match digits_value(digits.drop_last()) {
            Some(n) => if '0' <= digits.last() <= '9' {
                Some((n * 10 + (digits.last() as nat - '0' as nat)) as nat)
            } else {
                None
            },
            None => None,
        }
    }
}

/// The number that a text stands for: an optional sign and at least one digit, in the range of a
/// process number.
pub open spec fn number_of(text: Seq<char>) -> Option<int> {
    let signed = text.len() > 0 && (text[0] == '+' || text[0] == '-');
    let digits = if signed {
        text.drop_first()
    } else {
        text
    };
    if digits.len() == 0 {
        None
    } else {
        match digits_value(digits) {
            Some(n) => {
                let value = if text[0] == '-' {
                    -(n as int)
                } else {
                    n as int
                };
                if i32::MIN <= value <= i32::MAX {
                    Some(value)
                } else {
                    None
                }
            },
            None => None,
        }
    }
}

/// The process number in a file about a mount.
pub open spec fn pid_in(text: Seq<char>) -> Option<int> {
    if text.len() == 0 {
        None
    } else {
        number_of(first_line(text))
    }
}

/// The second line, if there is one.
pub open spec fn second_line(text: Seq<char>) -> Option<Seq<char>> {
    let rest = line_end(text) + 1;
    if rest < text.len() {
        Some(first_line(text.skip(rest)))
    } else {
        None
    }
}

fn find_line_end(text: &Vec<char>) -> (r: usize)
    ensures
        r == line_end(text@),
        r <= text@.len(),
        r < text@.len() ==> text@[r as int] == '\n',
{
    let n = text.len();
    let mut i: usize = 0;
    assert(text@.skip(0) =~= text@);
    while i < n
        invariant
            i <= n == text@.len(),
            line_end(text@) == i + line_end(text@.skip(i as int)),
        decreases n - i,
    {
        assert(text@.skip(i as int)[0] == text@[i as int]);
        assert(text@.skip(i as int).drop_first() =~= text@.skip(i + 1));
        if text[i] == '\n' {
            return i;
        }
        i += 1;
    }
    i
}

fn digit_value(c: char) -> (r: Option<u8>)
    ensures
        r == (if '0' <= c <= '9' {
            Some((c as u32 - '0' as u32) as u8)
        } else {
            None
        }),
{
    match c {
        '0' => Some(0),
        '1' => Some(1),
        '2' => Some(2),
        '3' => Some(3),
        '4' => Some(4),
        '5' => Some(5),
        '6' => Some(6),
        '7' => Some(7),
        '8' => Some(8),
        '9' => Some(9),
        _ => None,
    }
}

/// Digits only make a number larger.
proof fn lemma_digits_grow(digits: Seq<char>, k: int)
    requires
        0 <= k <= digits.len(),
        digits_value(digits) is Some,
    ensures
        digits_value(digits.take(k)) is Some,
        digits_value(digits.take(k))->0 <= digits_value(digits)->0,
    decreases digits.len() - k,
{
    if k == digits.len() {
        assert(digits.take(k) =~= digits);
    } else {
        lemma_digits_grow(digits, k + 1);
        assert(digits.take(k + 1).drop_last() =~= digits.take(k));
    }
}

/// The number that the digits of `text` from `from` on stand for, as far as it is no greater than
/// `limit`.
fn read_digits(text: &Vec<char>, from: usize, limit: u64) -> (r: Option<u64>)
    requires
        from <= text@.len(),
        limit <= 0xffff_ffff,
    ensures
        match digits_value(text@.skip(from as int)) {
            Some(n) => if n <= limit {
                r is Some && r->0 == n
            } else {
                r is None
            },
            None => r is None,
        },
{
    let ghost digits = text@.skip(from as int);
    let mut value: u64 = 0;
    let mut i: usize = from;
    assert(digits.take(0) =~= Seq::empty());
    while i < text.len()
        invariant
            from <= i <= text@.len(),
            limit <= 0xffff_ffff,
            digits == text@.skip(from as int),
            digits_value(digits.take(i - from)) == Some(value as nat),
            value <= limit,
        decreases text@.len() - i,
    {
        assert(digits.take(i + 1 - from).drop_last() =~= digits.take(i - from));
        assert(digits.take(i + 1 - from).last() == text@[i as int]);
        match digit_value(text[i]) {
            Some(d) => {
                value = value * 10 + d as u64;
                if value > limit {
                    proof {
                        if digits_value(digits) is Some {
                            lemma_digits_grow(digits, i + 1 - from);
                        }
                    }
                    return None;
                }
            },
            None => {
                proof {
                    if digits_value(digits) is Some {
                        lemma_digits_grow(digits, i + 1 - from);
                    }
                }
                return None;
            },
        }
        i += 1;
    }
    assert(digits.take(i - from) =~= digits);
    Some(value)
}

/// Reads the process number from a file about a mount.
pub fn parse_pid(text: &str) -> (pid: Option<i32>)
    ensures
        match pid_in(text@) {
            Some(n) => pid is Some && pid->0 == n,
            None => pid is None,
        },
{
    let mut chars = chars_of(text);
    if chars.len() == 0 {
        return None;
    }
    let end = find_line_end(&chars);
    let cut = if 0 < end && end < chars.len() && chars[end - 1] == '\r' {
        end - 1
    } else {
        end
    };
    chars.truncate(cut);
    let ghost line = chars@;
    assert(line =~= first_line(text@));
    let n = chars.len();
    let negative = n > 0 && chars[0] == '-';
    let signed = n > 0 && (chars[0] == '+' || chars[0] == '-');
    let from: usize = if signed {
        1
    } else {
        0
    };
    if from == n {
        return None;
    }
    assert(line.skip(from as int) =~= (if signed {
        line.drop_first()
    } else {
        line
    }));
    let limit: u64 = if negative {
        0x8000_0000
    } else {
        0x7fff_ffff
    };
    match read_digits(&chars, from, limit) {
        Some(value) => {
            let value = value as i64;
            Some(
                if negative {
                    (-value) as i32
                } else {
                    value as i32
                },
            )
        },
        None => None,
    }
}

/// Reads the mount directory from a file about a mount: its second line.
pub fn parse_mountpoint(text: &str) -> (mountpoint: Option<String>)
    ensures
        match second_line(text@) {
            Some(line) => mountpoint is Some && mountpoint->0@ == line,
            None => mountpoint is None,
        },
{
    let chars = chars_of(text);
    let end = find_line_end(&chars);
    if chars.len() - end <= 1 {
        return None;
    }
    let rest = sub_chars(&chars, end + 1, chars.len());
    assert(rest@ =~= text@.skip(end + 1));
    let end = find_line_end(&rest);
    let cut = if 0 < end && end < rest.len() && rest[end - 1] == '\r' {
        end - 1
    } else {
        end
    };
    let line = sub_chars(&rest, 0, cut);
    assert(line@ =~= first_line(rest@));
    Some(string_of(&line))
}

/// Whether an argument asks for the mount to run in the background.
pub open spec fn asks_for_background(arg: Seq<char>) -> bool {
    arg == "-d"@ || arg == "--background"@
}

/// The arguments for the process in the background.
pub open spec fn foreground_args(args: Seq<Seq<char>>) -> Seq<Seq<char>> {
    args.filter(|arg: Seq<char>| !asks_for_background(arg))
}

/// The arguments for the process that serves the mount in the background: all of `args` but those
/// that ask for that.
pub fn background_args(args: &Vec<String>) -> (r: Vec<String>)
    ensures
        views(r@) == foreground_args(views(args@)),
{
    broadcast use group_views;

    let ghost all = views(args@);
    let mut r: Vec<String> = Vec::new();
    let mut i: usize = 0;
    proof {
        reveal(Seq::filter);
        assert(all.take(0) =~= Seq::empty());
        assert(views(r@) =~= Seq::empty());
    }
    while i < args.len()
        invariant
            i <= args@.len(),
            all == views(args@),
            views(r@) == foreground_args(all.take(i as int)),
        decreases args@.len() - i,
    {
        broadcast use group_views;

        proof {
            reveal(Seq::filter);
            assert(all.take(i + 1).drop_last() =~= all.take(i as int));
            assert(all.take(i + 1).last() == args@[i as int]@);
        }
        if !same_text(&args[i], "-d") && !same_text(&args[i], "--background") {
            r.push(args[i].clone());
        }
        i += 1;
    }
    assert(all.take(i as int) =~= all);
    r
}

} // verus!
