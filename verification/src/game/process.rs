//! What the system says of the running process, from the text that it offers.

use crate::chars::{is_white, white};
use crate::game::text::{characters, number_of, parse_digits};
use vstd::prelude::*;

verus! {

/// The number of blanks at the start of a text.
pub open spec fn blank_len(text: Seq<char>) -> nat
    decreases text.len(),
{
    if text.len() > 0 && is_white(text[0]) {
        1 + blank_len(text.skip(1))
    } else {
        0
    }
}

/// The length of the word at the start of a text.
pub open spec fn word_len(text: Seq<char>) -> nat
    decreases text.len(),
{
    if text.len() > 0 && !is_white(text[0]) {
        1 + word_len(text.skip(1))
    } else {
        0
    }
}

/// The length of the line at the start of a text.
pub open spec fn line_len(text: Seq<char>) -> nat
    decreases text.len(),
{
    if text.len() > 0 && text[0] != '\n' {
        1 + line_len(text.skip(1))
    } else {
        0
    }
}

/// A word of a text, counted from zero.
pub open spec fn word(text: Seq<char>, n: nat) -> Option<Seq<char>>
    decreases n,
{
    let start = text.skip(blank_len(text) as int);
    if start.len() == 0 {
        None
    } else if n == 0 {
        Some(start.take(word_len(start) as int))
    } else {
        word(start.skip(word_len(start) as int), (n - 1) as nat)
    }
}

/// The number that a word of a text is, if it is one.
pub open spec fn number_at(text: Seq<char>, n: nat) -> Option<u64> {
    match word(text, n) {
        Some(w) => number_of(w),
        None => None,
    }
}

/// Where the blanks at a place end.
fn skip_blanks(chars: &Vec<char>, from: usize, to: usize) -> (r: usize)
    requires
        from <= to <= chars@.len(),
    ensures
        r == from + blank_len(chars@.subrange(from as int, to as int)),
        from <= r <= to,
{
    let mut i: usize = from;
    while i < to && white(chars[i])
        invariant
            from <= i <= to <= chars@.len(),
            i + blank_len(chars@.subrange(i as int, to as int)) == from + blank_len(
                chars@.subrange(from as int, to as int),
            ),
        decreases to - i,
    {
        assert(chars@.subrange(i as int, to as int).skip(1) =~= chars@.subrange(i + 1, to as int));
        i += 1;
    }
    i
}

/// Where the word at a place ends.
fn skip_word(chars: &Vec<char>, from: usize, to: usize) -> (r: usize)
    requires
        from <= to <= chars@.len(),
    ensures
        r == from + word_len(chars@.subrange(from as int, to as int)),
        from <= r <= to,
{
    let mut i: usize = from;
    while i < to && !white(chars[i])
        invariant
            from <= i <= to <= chars@.len(),
            i + word_len(chars@.subrange(i as int, to as int)) == from + word_len(
                chars@.subrange(from as int, to as int),
            ),
        decreases to - i,
    {
        assert(chars@.subrange(i as int, to as int).skip(1) =~= chars@.subrange(i + 1, to as int));
        i += 1;
    }
    i
}

/// Where the line at a place ends.
fn skip_line(chars: &Vec<char>, from: usize) -> (r: usize)
    requires
        from <= chars@.len(),
    ensures
        r == from + line_len(chars@.skip(from as int)),
        from <= r <= chars@.len(),
{
    let mut i: usize = from;
    while i < chars.len() && chars[i] != '\n'
        invariant
            from <= i <= chars@.len(),
            i + line_len(chars@.skip(i as int)) == from + line_len(chars@.skip(from as int)),
        decreases chars@.len() - i,
    {
        assert(chars@.skip(i as int).skip(1) =~= chars@.skip(i + 1));
        i += 1;
    }
    i
}

/// A word between two places.
fn find_word(chars: &Vec<char>, from: usize, to: usize, n: usize) -> (r: Option<Vec<char>>)
    requires
        from <= to <= chars@.len(),
    ensures
        match word(chars@.subrange(from as int, to as int), n as nat) {
            Some(w) => r is Some && (r->0)@ == w,
            None => r is None,
        },
{
    let mut i: usize = from;
    let mut left: usize = n;
    loop
        invariant
            from <= i <= to <= chars@.len(),
            left <= n,
            word(chars@.subrange(i as int, to as int), left as nat) == word(
                chars@.subrange(from as int, to as int),
                n as nat,
            ),
        decreases left,
    {
        let start: usize = skip_blanks(chars, i, to);
        let end: usize = skip_word(chars, start, to);
        let ghost here = chars@.subrange(i as int, to as int);
        assert(here.skip(start - i) =~= chars@.subrange(start as int, to as int));
        if start == to {
            return None;
        }
        if left == 0 {
            let mut out: Vec<char> = Vec::new();
            let mut k: usize = start;
            while k < end
                invariant
                    start <= k <= end <= chars@.len(),
                    out@ == chars@.subrange(start as int, k as int),
                decreases end - k,
            {
                out.push(chars[k]);
                k += 1;
                assert(out@ =~= chars@.subrange(start as int, k as int));
            }
            assert(chars@.subrange(start as int, to as int).take(end - start) =~= out@);
            return Some(out);
        }
        assert(chars@.subrange(start as int, to as int).skip(end - start) =~= chars@.subrange(
            end as int,
            to as int,
        ));
        i = end;
        left -= 1;
    }
}

/// The number that a word between two places is.
fn find_number(chars: &Vec<char>, from: usize, to: usize, n: usize) -> (r: Option<u64>)
    requires
        from <= to <= chars@.len(),
    ensures
        r == number_at(chars@.subrange(from as int, to as int), n as nat),
{
    match find_word(chars, from, to, n) {
        Some(w) => parse_digits(&w),
        None => None,
    }
}

fn is_text(chars: &Vec<char>, text: &str) -> (r: bool)
    ensures
        r == (chars@ == text@),
{
    let other = characters(text);
    if chars.len() != other.len() {
        return false;
    }
    let mut i: usize = 0;
    while i < chars.len()
        invariant
            i <= chars@.len(),
            chars@.len() == other@.len(),
            other@ == text@,
            forall|k: int| 0 <= k < i ==> #[trigger] chars@[k] == other@[k],
        decreases chars@.len() - i,
    {
        if chars[i] != other[i] {
            return false;
        }
        i += 1;
    }
    assert(chars@ =~= text@);
    true
}

/// Memory in use and its peak, in units of 1024 bytes, and the number of threads.
#[derive(Clone, Copy, Debug, PartialEq, Eq, Structural)]
pub struct ProcessStatus {
    pub resident: u64,
    pub peak: u64,
    pub threads: u32,
}

/// A number, or zero.
pub open spec fn or_zero(number: Option<u64>) -> u64 {
    match number {
        Some(n) => n,
        None => 0,
    }
}

/// A number if it is that of threads, or zero.
pub open spec fn threads_or_zero(number: Option<u64>) -> u32 {
    match number {
        Some(n) => if n <= u32::MAX {
            n as u32
        } else {
            0
        },
        None => 0,
    }
}

/// The status with what a line says.
pub open spec fn with_line(status: ProcessStatus, line: Seq<char>) -> ProcessStatus {
    let value = number_at(line, 1);
    match word(line, 0) {
        Some(key) => if key == "VmRSS:"@ {
            ProcessStatus { resident: or_zero(value), ..status }
        } else if key == "VmHWM:"@ {
            ProcessStatus { peak: or_zero(value), ..status }
        } else if key == "Threads:"@ {
            ProcessStatus { threads: threads_or_zero(value), ..status }
        } else {
            status
        },
        None => status,
    }
}

/// The status with what the lines of a text say.
pub open spec fn with_lines(status: ProcessStatus, text: Seq<char>) -> ProcessStatus
    decreases text.len(),
{
    if text.len() == 0 {
        status
    } else {
        let n = line_len(text) as int;
        let after = with_line(status, text.take(n));
        if n < text.len() {
            with_lines(after, text.skip(n + 1))
        } else {
            after
        }
    }
}

fn read_line(status: ProcessStatus, chars: &Vec<char>, from: usize, to: usize) -> (r: ProcessStatus)
    requires
        from <= to <= chars@.len(),
    ensures
        r == with_line(status, chars@.subrange(from as int, to as int)),
{
    let key = match find_word(chars, from, to, 0) {
        Some(key) => key,
        None => {
            return status;
        },
    };
    let value = find_number(chars, from, to, 1);
    proof {
        reveal_strlit("VmRSS:");
        reveal_strlit("VmHWM:");
        reveal_strlit("Threads:");
    }
    if is_text(&key, "VmRSS:") {
        let resident: u64 = match value {
            Some(n) => n,
            None => 0,
        };
        ProcessStatus { resident, peak: status.peak, threads: status.threads }
    } else if is_text(&key, "VmHWM:") {
        let peak: u64 = match value {
            Some(n) => n,
            None => 0,
        };
        ProcessStatus { resident: status.resident, peak, threads: status.threads }
    } else if is_text(&key, "Threads:") {
        let threads: u32 = match value {
            Some(n) => if n <= u32::MAX as u64 {
                n as u32
            } else {
                0
            },
            None => 0,
        };
        ProcessStatus { resident: status.resident, peak: status.peak, threads }
    } else {
        status
    }
}

/// Reads the status of a process, line by line. What is not said is zero.
pub fn read_status(text: &str) -> (r: ProcessStatus)
    ensures
        r == with_lines(ProcessStatus { resident: 0, peak: 0, threads: 0 }, text@),
{
    let chars = characters(text);
    let ghost none = ProcessStatus { resident: 0, peak: 0, threads: 0 };
    let mut status = ProcessStatus { resident: 0, peak: 0, threads: 0 };
    let mut i: usize = 0;
    assert(chars@.skip(0) =~= chars@);
    while i < chars.len()
        invariant
            i <= chars@.len(),
            chars@ == text@,
            none == (ProcessStatus { resident: 0, peak: 0, threads: 0 }),
            with_lines(status, chars@.skip(i as int)) == with_lines(none, text@),
        decreases chars@.len() - i,
    {
        let end: usize = skip_line(&chars, i);
        let ghost here = chars@.skip(i as int);
        assert(here.take(end - i) =~= chars@.subrange(i as int, end as int));
        status = read_line(status, &chars, i, end);
        if end == chars.len() {
            return status;
        }
        assert(here.skip(end - i + 1) =~= chars@.skip(end + 1));
        i = end + 1;
    }
    status
}

/// The place of the last closing bracket of a text.
pub open spec fn last_bracket(text: Seq<char>) -> Option<nat>
    decreases text.len(),
{
    if text.len() == 0 {
        None
    } else if text.last() == ')' {
        Some((text.len() - 1) as nat)
    } else {
        last_bracket(text.drop_last())
    }
}

/// The processor time of a process, for its own work and for the system's, in ticks:
/// the twelfth and thirteenth words after its name, which stands in brackets and may
/// hold anything.
pub open spec fn ticks_of(text: Seq<char>) -> Option<(u64, u64)> {
    match last_bracket(text) {
        Some(at) => {
            let rest = text.skip((at + 1) as int);
            match (number_at(rest, 11), number_at(rest, 12)) {
                (Some(own), Some(system)) => Some((own, system)),
                _ => None,
            }
        },
        None => None,
    }
}

/// Reads the processor time of a process.
pub fn read_ticks(text: &str) -> (r: Option<(u64, u64)>)
    ensures
        r == ticks_of(text@),
{
    let chars = characters(text);
    let mut end: usize = chars.len();
    assert(chars@.take(end as int) =~= chars@);
    while end > 0 && chars[end - 1] != ')'
        invariant
            end <= chars@.len(),
            chars@ == text@,
            last_bracket(chars@.take(end as int)) == last_bracket(text@),
        decreases end,
    {
        assert(chars@.take(end as int).drop_last() =~= chars@.take(end - 1));
        end -= 1;
    }
    if end == 0 {
        return None;
    }
    assert(chars@.take(end as int).last() == ')');
    assert(chars@.subrange(end as int, chars@.len() as int) =~= text@.skip(end as int));
    let own = find_number(&chars, end, chars.len(), 11);
    let system = find_number(&chars, end, chars.len(), 12);
    match (own, system) {
        (Some(own), Some(system)) => Some((own, system)),
        _ => None,
    }
}

/// Whether a text has no white space in it.
pub open spec fn is_word(text: Seq<char>) -> bool {
    text.len() > 0 && forall|i: int| 0 <= i < text.len() ==> !is_white(#[trigger] text[i])
}

/// Whether a text is nothing but white space.
pub open spec fn is_blank(text: Seq<char>) -> bool {
    forall|i: int| 0 <= i < text.len() ==> is_white(#[trigger] text[i])
}

/// Words are what lies between white space: blanks in front of a text change nothing, the
/// word in front of a blank is the first, and those of the rest follow it.
pub proof fn words_lie_between_blanks(first: Seq<char>, gap: Seq<char>, rest: Seq<char>, n: nat)
    requires
        is_word(first),
        is_blank(gap),
        gap.len() > 0,
    ensures
        word(gap + rest, n) == word(rest, n),
        word(first + gap + rest, 0) == Some(first),
        word(first + gap + rest, n + 1) == word(rest, n),
        word(first, 0) == Some(first),
        word(gap, n) is None,
{
    lemma_blanks_skipped(gap, rest, n);
    lemma_word_taken(first, gap + rest);
    lemma_word_taken(first, Seq::empty());
    let text = first + gap + rest;
    assert(text =~= first + (gap + rest));
    assert(first + Seq::<char>::empty() =~= first);
    assert(text.skip(0) =~= text);
    assert(first.skip(0) =~= first);
    assert(first.take(first.len() as int) =~= first);
    assert(text.take(first.len() as int) =~= first);
    assert(text.skip(first.len() as int) =~= gap + rest);
    assert(gap + Seq::<char>::empty() =~= gap);
    lemma_blanks_skipped(gap, Seq::empty(), n);
    assert(Seq::<char>::empty().skip(0) =~= Seq::<char>::empty());
}

proof fn lemma_blanks_skipped(gap: Seq<char>, rest: Seq<char>, n: nat)
    requires
        is_blank(gap),
    ensures
        blank_len(gap + rest) == gap.len() + blank_len(rest),
        (gap + rest).skip(blank_len(gap + rest) as int) == rest.skip(blank_len(rest) as int),
        word(gap + rest, n) == word(rest, n),
    decreases gap.len(),
{
    if gap.len() > 0 {
        let fewer = gap.skip(1);
        assert forall|i: int| 0 <= i < fewer.len() implies is_white(#[trigger] fewer[i]) by {
            assert(fewer[i] == gap[i + 1]);
        }
        lemma_blanks_skipped(fewer, rest, n);
        assert((gap + rest).skip(1) =~= fewer + rest);
        assert((gap + rest)[0] == gap[0]);
    } else {
        assert(gap + rest =~= rest);
    }
    lemma_blank_len(rest);
    assert((gap + rest).skip(blank_len(gap + rest) as int) =~= rest.skip(blank_len(rest) as int));
}

proof fn lemma_blank_len(text: Seq<char>)
    ensures
        blank_len(text) <= text.len(),
    decreases text.len(),
{
    if text.len() > 0 && is_white(text[0]) {
        lemma_blank_len(text.skip(1));
    }
}

proof fn lemma_word_taken(first: Seq<char>, rest: Seq<char>)
    requires
        is_word(first),
        rest.len() > 0 ==> is_white(rest[0]),
    ensures
        word_len(first + rest) == first.len(),
        blank_len(first + rest) == 0,
    decreases first.len(),
{
    let text = first + rest;
    assert(text[0] == first[0]);
    let fewer = first.skip(1);
    assert(text.skip(1) =~= fewer + rest);
    if fewer.len() > 0 {
        assert forall|i: int| 0 <= i < fewer.len() implies !is_white(#[trigger] fewer[i]) by {
            assert(fewer[i] == first[i + 1]);
        }
        lemma_word_taken(fewer, rest);
    } else {
        assert(fewer + rest =~= rest);
    }
}

/// The lines of a text are read one after the other.
pub proof fn lines_are_read_in_turn(status: ProcessStatus, line: Seq<char>, rest: Seq<char>)
    requires
        forall|i: int| 0 <= i < line.len() ==> (#[trigger] line[i]) != '\n',
    ensures
        with_lines(status, line + seq!['\n'] + rest) == with_lines(with_line(status, line), rest),
        line.len() > 0 ==> with_lines(status, line) == with_line(status, line),
{
    let text = line + seq!['\n'] + rest;
    lemma_line_len(line, seq!['\n'] + rest);
    lemma_line_len(line, Seq::empty());
    assert(text =~= line + (seq!['\n'] + rest));
    assert(line + Seq::<char>::empty() =~= line);
    assert(text.take(line.len() as int) =~= line);
    assert(line.take(line.len() as int) =~= line);
    assert(text.skip((line.len() + 1) as int) =~= rest);
}

proof fn lemma_line_len(line: Seq<char>, rest: Seq<char>)
    requires
        forall|i: int| 0 <= i < line.len() ==> (#[trigger] line[i]) != '\n',
        rest.len() > 0 ==> rest[0] == '\n',
    ensures
        line_len(line + rest) == line.len(),
    decreases line.len(),
{
    if line.len() > 0 {
        let fewer = line.skip(1);
        assert((line + rest)[0] == line[0]);
        assert((line + rest).skip(1) =~= fewer + rest);
        assert forall|i: int| 0 <= i < fewer.len() implies (#[trigger] fewer[i]) != '\n' by {
            assert(fewer[i] == line[i + 1]);
        }
        lemma_line_len(fewer, rest);
    } else {
        assert(line + rest =~= rest);
    }
}

/// A line tells what its first word says, in the number that is its second: how much memory
/// is in use, how much was at most, or how many threads there are. It tells nothing else.
pub proof fn lines_tell_what_they_name(status: ProcessStatus, line: Seq<char>, n: u64)
    requires
        number_at(line, 1) == Some(n),
        n <= u32::MAX,
        word(line, 0) is Some,
    ensures
        ({
            let key = word(line, 0)->0;
            let after = with_line(status, line);
            &&& after.resident == if key == "VmRSS:"@ {
                n
            } else {
                status.resident
            }
            &&& after.peak == if key == "VmHWM:"@ {
                n
            } else {
                status.peak
            }
            &&& after.threads == if key == "Threads:"@ {
                n as u32
            } else {
                status.threads
            }
        }),
{
    reveal_strlit("VmRSS:");
    reveal_strlit("VmHWM:");
    reveal_strlit("Threads:");
    assert("VmRSS:"@[2] != "VmHWM:"@[2]);
    assert("VmRSS:"@.len() != "Threads:"@.len());
    assert("VmHWM:"@.len() != "Threads:"@.len());
}

/// The times of a process are the twelfth and thirteenth word after the last bracket.
pub proof fn times_follow_the_last_bracket(head: Seq<char>, rest: Seq<char>)
    requires
        forall|i: int| 0 <= i < rest.len() ==> (#[trigger] rest[i]) != ')',
    ensures
        ticks_of(head + seq![')'] + rest) == (match (number_at(rest, 11), number_at(rest, 12)) {
            (Some(own), Some(system)) => Some((own, system)),
            _ => None,
        }),
        ticks_of(rest) is None,
{
    let text = head + seq![')'] + rest;
    lemma_last_bracket(head + seq![')'], rest);
    lemma_last_bracket(Seq::empty(), rest);
    assert((head + seq![')']).last() == ')');
    assert(text.skip((head.len() + 1) as int) =~= rest);
    assert(Seq::<char>::empty() + rest =~= rest);
}

proof fn lemma_last_bracket(head: Seq<char>, rest: Seq<char>)
    requires
        forall|i: int| 0 <= i < rest.len() ==> (#[trigger] rest[i]) != ')',
    ensures
        last_bracket(head + rest) == last_bracket(head),
    decreases rest.len(),
{
    if rest.len() > 0 {
        let fewer = rest.drop_last();
        assert((head + rest).last() == rest[rest.len() - 1]);
        assert((head + rest).drop_last() =~= head + fewer);
        lemma_last_bracket(head, fewer);
    } else {
        assert(head + rest =~= head);
    }
}

} // verus!
