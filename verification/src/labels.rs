//! What holds of the texts that name mounts and tell of them.
use vstd::prelude::*;

use crate::cli::{dashed, is_plain, name_of_mount, sanitized, shortened, top_levels};
use crate::daemon::{
    asks_for_background, digits_value, first_line, foreground_args, hex, hex_digit, line_end,
    number_of, second_line, state_name,
};
use crate::naming::{law_decimal_is_read_back, lemma_dashed};
use crate::text::decimal;

verus! {

/// The characters that names are made of are the ASCII letters and digits, by their code points.
pub proof fn law_which_characters_are_plain(c: char)
    ensures
        is_plain(c) <==> (48 <= c as int && c as int <= 57) || (65 <= c as int && c as int <= 90) || (97
            <= c as int && c as int <= 122),
{
}

proof fn lemma_dashed_plain(name: Seq<char>)
    requires
        forall|i: int| 0 <= i < name.len() ==> is_plain(#[trigger] name[i]),
    ensures
        dashed(name) == name,
    decreases name.len(),
{
    if name.len() > 0 {
        let before = name.drop_last();
        assert forall|i: int| 0 <= i < before.len() implies is_plain(#[trigger] before[i]) by {
            assert(before[i] == name[i]);
        }
        lemma_dashed_plain(before);
        assert(is_plain(name[name.len() - 1]));
        assert(before.push(name.last()) =~= name);
    } else {
        assert(dashed(name) =~= name);
    }
}

proof fn lemma_dashed_joined(a: Seq<char>, c: char, b: Seq<char>)
    requires
        !is_plain(c),
    ensures
        dashed(a.push(c) + b) == dashed(a.push(c)) + dashed(b),
        dashed(a.push(c)).len() > 0 ==> dashed(a.push(c)).last() == '-',
    decreases b.len(),
{
    let whole = a.push(c) + b;
    assert(a.push(c).drop_last() =~= a);
    assert(a.push(c).last() == c);
    if b.len() == 0 {
        assert(whole =~= a.push(c));
        assert(dashed(a.push(c)) + dashed(b) =~= dashed(a.push(c)));
    } else {
        let less = b.drop_last();
        assert(whole.drop_last() =~= a.push(c) + less);
        assert(whole.last() == b.last());
        lemma_dashed_joined(a, c, less);
        let x = dashed(a.push(c));
        let y = dashed(less);
        if is_plain(b.last()) {
            assert((x + y).push(b.last()) =~= x + y.push(b.last()));
        } else if y.len() > 0 {
            assert((x + y).last() == y.last());
            assert((x + y).push('-') =~= x + y.push('-'));
        } else {
            assert(x + y =~= x);
        }
    }
}

/// A name of ASCII letters and digits is sanitized already. Any other character parts a name, and the
/// sanitized parts are joined with `-`, where there is something on both sides.
pub proof fn law_how_names_are_sanitized(a: Seq<char>, c: char, b: Seq<char>)
    ensures
        (forall|i: int| 0 <= i < a.len() ==> is_plain(#[trigger] a[i])) ==> sanitized(a) == a,
        !is_plain(c) ==> sanitized(a + seq![c] + b) == (if sanitized(a).len() == 0 {
            sanitized(b)
        } else if sanitized(b).len() == 0 {
            sanitized(a)
        } else {
            sanitized(a) + seq!['-'] + sanitized(b)
        }),
{
    if forall|i: int| 0 <= i < a.len() ==> is_plain(#[trigger] a[i]) {
        lemma_dashed_plain(a);
        if a.len() > 0 {
            assert(is_plain(a[a.len() - 1]));
        }
    }
    if !is_plain(c) {
        assert(a + seq![c] + b =~= a.push(c) + b);
        assert(a.push(c).drop_last() =~= a);
        assert(a.push(c).last() == c);
        lemma_dashed_joined(a, c, b);
        lemma_dashed(a);
        lemma_dashed(b);
        let x = dashed(a.push(c));
        let y = dashed(b);
        let whole = a.push(c) + b;
        assert(dashed(whole) == x + y);
        if dashed(a).len() > 0 {
            assert(x =~= sanitized(a) + seq!['-']);
            assert(sanitized(a).len() > 0);
        } else {
            assert(x.len() == 0);
            assert(x + y =~= y);
        }
        if y.len() > 0 {
            assert(sanitized(b).len() > 0);
            assert((x + y).last() == y.last());
            if y.last() == '-' {
                assert((x + y).drop_last() =~= x + y.drop_last());
            }
            assert(sanitized(whole) =~= x + sanitized(b));
            if dashed(a).len() > 0 {
                assert(sanitized(whole) =~= sanitized(a) + seq!['-'] + sanitized(b));
            } else {
                assert(sanitized(whole) =~= sanitized(b));
            }
        } else {
            assert(x + y =~= x);
            if dashed(a).len() > 0 {
                assert(x.drop_last() =~= sanitized(a));
            }
        }
    }
}

/// A text that is cut off is the beginning of the text, and as long as it may be.
pub proof fn law_how_texts_are_cut_off(s: Seq<char>, max: nat)
    ensures
        s.len() <= max ==> shortened(s, max) == s,
        s.len() > max ==> shortened(s, max).len() == max,
        forall|i: int|
            0 <= i < shortened(s, max).len() ==> #[trigger] shortened(s, max)[i] == s[i],
{
}

/// The names at the top of a mount are the first names of its paths, each once.
pub proof fn law_what_is_at_the_top(paths: Seq<Seq<Seq<char>>>)
    ensures
        top_levels(paths).no_duplicates(),
        forall|i: int|
            0 <= i < paths.len() && (#[trigger] paths[i]).len() > 0 ==> top_levels(paths).contains(
                paths[i][0],
            ),
        forall|k: int|
            0 <= k < top_levels(paths).len() ==> exists|i: int|
                0 <= i < paths.len() && (#[trigger] paths[i]).len() > 0 && paths[i][0]
                    == #[trigger] top_levels(paths)[k],
    decreases paths.len(),
{
    if paths.len() > 0 {
        let less = paths.drop_last();
        law_what_is_at_the_top(less);
        let before = top_levels(less);
        let all = top_levels(paths);
        let path = paths.last();
        assert forall|i: int| 0 <= i < paths.len() && (#[trigger] paths[i]).len() > 0 implies
            all.contains(paths[i][0]) by {
            if i < less.len() {
                assert(less[i] == paths[i]);
                let k = choose|k: int| 0 <= k < before.len() && before[k] == paths[i][0];
                assert(all[k] == paths[i][0]);
            } else if before.contains(path[0]) {
                let k = choose|k: int| 0 <= k < before.len() && before[k] == path[0];
                assert(all[k] == path[0]);
            } else {
                assert(all[before.len() as int] == path[0]);
            }
        }
        assert forall|k: int| 0 <= k < all.len() implies exists|i: int|
            0 <= i < paths.len() && (#[trigger] paths[i]).len() > 0 && paths[i][0]
                == #[trigger] all[k] by {
            if k < before.len() {
                assert(all[k] == before[k]);
                let i = choose|i: int|
                    0 <= i < less.len() && (#[trigger] less[i]).len() > 0 && less[i][0]
                        == before[k];
                assert(paths[i] == less[i]);
            } else {
                assert(paths[paths.len() - 1][0] == all[k]);
            }
        }
    }
}

proof fn lemma_first_at_the_top(paths: Seq<Seq<Seq<char>>>, k: int)
    requires
        0 <= k < paths.len(),
        paths[k].len() > 0,
        forall|i: int| 0 <= i < k ==> (#[trigger] paths[i]).len() == 0,
    ensures
        top_levels(paths).len() > 0,
        top_levels(paths)[0] == paths[k][0],
    decreases paths.len(),
{
    let less = paths.drop_last();
    if k < less.len() {
        assert forall|i: int| 0 <= i < k implies (#[trigger] less[i]).len() == 0 by {
            assert(less[i] == paths[i]);
        }
        lemma_first_at_the_top(less, k);
    } else {
        assert forall|i: int| 0 <= i < less.len() implies (#[trigger] less[i]).len() == 0 by {
            assert(less[i] == paths[i]);
        }
        lemma_nothing_at_the_top(less);
    }
}

proof fn lemma_nothing_at_the_top(paths: Seq<Seq<Seq<char>>>)
    requires
        forall|i: int| 0 <= i < paths.len() ==> (#[trigger] paths[i]).len() == 0,
    ensures
        top_levels(paths).len() == 0,
    decreases paths.len(),
{
    if paths.len() > 0 {
        let less = paths.drop_last();
        assert forall|i: int| 0 <= i < less.len() implies (#[trigger] less[i]).len() == 0 by {
            assert(less[i] == paths[i]);
        }
        lemma_nothing_at_the_top(less);
        assert(paths[paths.len() - 1].len() == 0);
    }
}

/// What a mount is called: `mq-` and the sanitized first name at its top, with `+` and how many more
/// there are where there are more, the whole of that cut off behind 40 characters; `mq-mount` where
/// nothing is left of the only name.
pub proof fn law_what_a_mount_is_called(paths: Seq<Seq<Seq<char>>>, k: int)
    requires
        0 <= k < paths.len(),
        paths[k].len() > 0,
        forall|i: int| 0 <= i < k ==> (#[trigger] paths[i]).len() == 0,
    ensures
        ({
            let first = sanitized(paths[k][0]);
            let n = top_levels(paths).len();
            let name = name_of_mount(paths);
            &&& n > 0
            &&& n == 1 && first.len() == 0 ==> name == "mq-mount"@
            &&& n == 1 && 0 < first.len() <= 40 ==> name == "mq-"@ + first
            &&& n == 1 && first.len() > 40 ==> name == "mq-"@ + first.take(40)
            &&& n > 1 ==> {
                let text = first + seq!['+'] + decimal((n - 1) as nat);
                &&& text.len() <= 40 ==> name == "mq-"@ + text
                &&& text.len() > 40 ==> name == "mq-"@ + text.take(40)
            }
        }),
{
    reveal_strlit("mq-mount");
    reveal_strlit("mq-");
    reveal_strlit("mount");
    lemma_first_at_the_top(paths, k);
    let first = sanitized(paths[k][0]);
    assert(first.push('+') =~= first + seq!['+']);
    assert("mq-"@ + "mount"@ =~= "mq-mount"@);
}

/// A mount without files is called `mq-mount`.
pub proof fn law_what_an_empty_mount_is_called(paths: Seq<Seq<Seq<char>>>)
    requires
        forall|i: int| 0 <= i < paths.len() ==> (#[trigger] paths[i]).len() == 0,
    ensures
        name_of_mount(paths) == "mq-mount"@,
{
    reveal_strlit("mq-mount");
    reveal_strlit("mq-");
    reveal_strlit("mount");
    lemma_nothing_at_the_top(paths);
    assert("mq-"@ + "mount"@ =~= "mq-mount"@);
}

/// A number is written without leading zeros.
pub proof fn law_decimals_have_no_leading_zeros(n: nat)
    ensures
        n > 0 ==> decimal(n)[0] != '0',
        n == 0 ==> decimal(n) == seq!['0'],
        decimal(n).len() > 0,
    decreases n,
{
    if n >= 10 {
        law_decimals_have_no_leading_zeros(n / 10);
        assert(decimal(n)[0] == decimal(n / 10)[0]);
    }
}

/// The number that hexadecimal digits stand for.
pub open spec fn hex_value(digits: Seq<char>) -> nat
    decreases digits.len(),
{
    if digits.len() == 0 {
        0
    } else {
        let c = digits.last();
        let d = if '0' <= c <= '9' {
            c as nat - '0' as nat
        } else {
            10 + (c as nat - 'a' as nat)
        };
        hex_value(digits.drop_last()) * 16 + d as nat
    }
}

/// 16 to the power of `width`.
pub open spec fn sixteens(width: nat) -> nat
    decreases width,
{
    if width == 0 {
        1
    } else {
        16 * sixteens((width - 1) as nat)
    }
}

/// A number is written in so many hexadecimal digits, and they stand for the number, where they are
/// enough.
pub proof fn law_hexadecimals_are_read_back(n: nat, width: nat)
    requires
        n < sixteens(width),
    ensures
        hex(n, width).len() == width,
        hex_value(hex(n, width)) == n,
        forall|i: int|
            0 <= i < width ==> '0' <= #[trigger] hex(n, width)[i] <= '9' || 'a' <= hex(n, width)[i]
                <= 'f',
    decreases width,
{
    if width > 0 {
        let w = (width - 1) as nat;
        assert(n / 16 < sixteens(w)) by (nonlinear_arith)
            requires
                n < 16 * sixteens(w),
        ;
        law_hexadecimals_are_read_back(n / 16, w);
        let h = hex(n, width);
        assert(h.drop_last() =~= hex(n / 16, w));
        assert(h.last() == hex_digit(n % 16));
        assert forall|i: int| 0 <= i < width implies '0' <= #[trigger] h[i] <= '9' || 'a' <= h[i]
            <= 'f' by {
            if i < w {
                assert(h[i] == hex(n / 16, w)[i]);
            }
        }
    }
}

/// The name of a file about a mount directory is the hash in 16 hexadecimal digits, a full stop and the
/// extension; two hashes give two names.
pub proof fn law_state_files_are_told_apart(a: u64, b: u64, ext: Seq<char>)
    ensures
        state_name(a, ext).len() == 17 + ext.len(),
        hex_value(state_name(a, ext).take(16)) == a,
        state_name(a, ext)[16] == '.',
        state_name(a, ext).skip(17) == ext,
        a != b ==> state_name(a, ext) != state_name(b, ext),
{
    reveal_with_fuel(sixteens, 17);
    assert(sixteens(16) == 0x1_0000_0000_0000_0000);
    law_hexadecimals_are_read_back(a as nat, 16);
    law_hexadecimals_are_read_back(b as nat, 16);
    assert(state_name(a, ext).take(16) =~= hex(a as nat, 16));
    assert(state_name(b, ext).take(16) =~= hex(b as nat, 16));
    assert(state_name(a, ext).skip(17) =~= ext);
}

/// Whether a text holds no line feed.
pub open spec fn is_one_line(line: Seq<char>) -> bool {
    forall|i: int| 0 <= i < line.len() ==> #[trigger] line[i] != '\n'
}

proof fn lemma_line_ends(line: Seq<char>, rest: Seq<char>)
    requires
        is_one_line(line),
    ensures
        line_end(line + seq!['\n'] + rest) == line.len(),
        line_end(line) == line.len(),
    decreases line.len(),
{
    let text = line + seq!['\n'] + rest;
    if line.len() > 0 {
        let less = line.drop_first();
        assert(is_one_line(less)) by {
            assert forall|i: int| 0 <= i < less.len() implies #[trigger] less[i] != '\n' by {
                assert(less[i] == line[i + 1]);
            }
        }
        assert(text[0] == line[0]);
        assert(text.drop_first() =~= less + seq!['\n'] + rest);
        lemma_line_ends(less, rest);
    } else {
        assert(text[0] == '\n');
    }
}

/// A text is read line by line: its first line goes up to the first line feed, which may follow a
/// carriage return, and its second line is the first of what is behind it.
pub proof fn law_how_lines_are_read(line: Seq<char>, rest: Seq<char>)
    requires
        is_one_line(line),
    ensures
        line.len() == 0 || line.last() != '\r' ==> first_line(line + seq!['\n'] + rest) == line,
        line.len() > 0 && line.last() == '\r' ==> first_line(line + seq!['\n'] + rest)
            == line.drop_last(),
        first_line(line) == line,
        rest.len() > 0 ==> second_line(line + seq!['\n'] + rest) == Some(first_line(rest)),
        rest.len() == 0 ==> second_line(line + seq!['\n'] + rest) is None,
        second_line(line) is None,
{
    let text = line + seq!['\n'] + rest;
    let n = line.len() as int;
    lemma_line_ends(line, rest);
    assert(text.take(n) =~= line);
    assert(line.take(n) =~= line);
    if n > 0 {
        assert(text[n - 1] == line[n - 1]);
        assert(text.take(n - 1) =~= line.drop_last());
    }
    if rest.len() > 0 {
        assert(text.skip(n + 1) =~= rest);
    }
}

proof fn lemma_no_value(digits: Seq<char>, i: int)
    requires
        0 <= i < digits.len(),
        !('0' <= digits[i] <= '9'),
    ensures
        digits_value(digits) is None,
    decreases digits.len(),
{
    if i < digits.len() - 1 {
        lemma_no_value(digits.drop_last(), i);
    }
}

/// What number a text stands for: the one that is written there, behind a sign or without one, as long
/// as it is in the range of process numbers; and none where there is no digit or anything else.
pub proof fn law_what_number_a_text_stands_for(n: nat, text: Seq<char>, i: int)
    ensures
        n <= i32::MAX ==> number_of(decimal(n)) == Some(n as int),
        n <= i32::MAX ==> number_of(seq!['+'] + decimal(n)) == Some(n as int),
        n <= 0x8000_0000 ==> number_of(seq!['-'] + decimal(n)) == Some(-(n as int)),
        n > i32::MAX ==> number_of(decimal(n)) is None && number_of(
            seq!['+'] + decimal(n),
        ) is None,
        n > 0x8000_0000 ==> number_of(seq!['-'] + decimal(n)) is None,
        number_of(Seq::empty()) is None,
        number_of(seq!['+']) is None,
        number_of(seq!['-']) is None,
        0 < i < text.len() && !('0' <= text[i] <= '9') ==> number_of(text) is None,
        text.len() > 0 && !('0' <= text[0] <= '9') && text[0] != '+' && text[0] != '-'
            ==> number_of(text) is None,
{
    law_decimal_is_read_back(n);
    let d = decimal(n);
    assert('0' <= d[0] <= '9');
    assert((seq!['+'] + d).drop_first() =~= d);
    assert((seq!['-'] + d).drop_first() =~= d);
    assert((seq!['+'] + d)[0] == '+');
    assert((seq!['-'] + d)[0] == '-');
    assert(seq!['+'].drop_first() =~= Seq::empty());
    assert(seq!['-'].drop_first() =~= Seq::empty());
    if 0 < i < text.len() && !('0' <= text[i] <= '9') {
        lemma_no_value(text, i);
        assert(text.drop_first()[i - 1] == text[i]);
        lemma_no_value(text.drop_first(), i - 1);
    }
    if text.len() > 0 && !('0' <= text[0] <= '9') && text[0] != '+' && text[0] != '-' {
        lemma_no_value(text, 0);
    }
}

/// The process in the background gets the arguments but those that ask for the background, in their
/// order: each is left out or kept for itself.
pub proof fn law_which_arguments_are_passed_on(
    a: Seq<Seq<char>>,
    b: Seq<Seq<char>>,
    arg: Seq<char>,
)
    ensures
        foreground_args(a + b) == foreground_args(a) + foreground_args(b),
        arg == "-d"@ || arg == "--background"@ ==> foreground_args(seq![arg]).len() == 0,
        arg != "-d"@ && arg != "--background"@ ==> foreground_args(seq![arg]) == seq![arg],
        foreground_args(Seq::empty()).len() == 0,
{
    let pred = |x: Seq<char>| !asks_for_background(x);
    Seq::filter_distributes_over_add(a, b, pred);
    reveal(Seq::filter);
    let one = seq![arg];
    assert(one.drop_last() =~= Seq::empty());
    assert(one.last() == arg);
    assert(one.drop_last().filter(pred) =~= Seq::empty());
    if arg != "-d"@ && arg != "--background"@ {
        assert(foreground_args(one) =~= seq![arg]);
    }
}

} // verus!
