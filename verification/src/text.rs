//! Plain-text rendering of transcripts: clock times, word wrapping and the
//! speaker-grouped transcript layout.
use vstd::prelude::*;

use crate::device::{digits_value, is_digit};
use crate::segments::{SegmentView, TranscriptionSegment, segs_view};
use crate::strings::{
    char_len_utf8, char_utf8_len, chars_of, is_white, is_white_char, push_all, push_char,
    skip_white, string_from_chars, trim_bounds, trim_spec, trim_start_spec, utf8_len,
};

verus! {

/// The decimal digit for `d` (0..=9).
pub open spec fn digit_char(d: int) -> char {
    ('0' as int + d) as char
}

/// `n` written in decimal, without leading zeros.
pub open spec fn decimal(n: nat) -> Seq<char>
    decreases n,
{
    if n < 10 {
        seq![digit_char(n as int)]
    } else {
        decimal(n / 10).push(digit_char((n % 10) as int))
    }
}

/// Decimal writing reads back: `decimal(n)` is one or more digits whose
/// value is `n`.
pub proof fn lemma_decimal_reads_back(n: nat)
    ensures
        decimal(n).len() > 0,
        forall|k: int| 0 <= k < decimal(n).len() ==> is_digit(#[trigger] decimal(n)[k]),
        digits_value(decimal(n)) == n,
    decreases n,
{
    let d = (n % 10) as int;
    assert(('0' as int + d) as char as int == '0' as int + d);
    assert(digit_char(d) as int == '0' as int + d);
    if n < 10 {
        assert(n % 10 == n);
        let one = seq![digit_char(n as int)];
        assert(decimal(n) == one);
        assert(one.drop_last() =~= Seq::<char>::empty());
        assert(digits_value(one.drop_last()) == 0);
        assert(one.last() == digit_char(d));
        assert(digits_value(one) == 0 * 10 + (digit_char(d) as int - '0' as int));
    } else {
        lemma_decimal_reads_back(n / 10);
        let front = decimal(n / 10);
        let all = front.push(digit_char(d));
        assert(decimal(n) == all);
        assert(all.drop_last() =~= front);
        assert forall|k: int| 0 <= k < all.len() implies is_digit(#[trigger] all[k]) by {
            if k < front.len() {
                assert(all[k] == front[k]);
            }
        }
        assert(all.last() == digit_char(d));
        assert(digits_value(all) == digits_value(front) * 10 + (digit_char(d) as int - '0' as int));
        assert((n / 10) * 10 + n % 10 == n);
    }
}

/// `n` written in decimal with at least two digits (`{:02}`).
pub open spec fn pad2(n: nat) -> Seq<char> {
    if n < 10 {
        seq!['0', digit_char(n as int)]
    } else {
        decimal(n)
    }
}

/// `n` written in decimal, with a minus sign when negative.
pub open spec fn signed_decimal(n: int) -> Seq<char> {
    if n < 0 {
        seq!['-'] + decimal((-n) as nat)
    } else {
        decimal(n as nat)
    }
}

/// `total` seconds as `MM:SS`, or `HH:MM:SS` from one hour on.
pub open spec fn clock_text(total: nat) -> Seq<char> {
    let hours = total / 3600;
    let minutes = (total % 3600) / 60;
    let secs = total % 60;
    if hours > 0 {
        pad2(hours) + seq![':'] + pad2(minutes) + seq![':'] + pad2(secs)
    } else {
        pad2(minutes) + seq![':'] + pad2(secs)
    }
}

proof fn lemma_pad2_reads_back(x: nat)
    ensures
        pad2(x).len() >= 2,
        x < 100 ==> pad2(x).len() == 2,
        forall|k: int| 0 <= k < pad2(x).len() ==> is_digit(#[trigger] pad2(x)[k]),
        digits_value(pad2(x)) == x,
{
    lemma_decimal_reads_back(x);
    if x < 10 {
        let p = seq!['0', digit_char(x as int)];
        assert(pad2(x) == p);
        assert(digit_char(x as int) as int == '0' as int + x);
        assert(p.drop_last() =~= seq!['0']);
        assert(seq!['0'].drop_last() =~= Seq::<char>::empty());
        assert(digits_value(Seq::<char>::empty()) == 0);
        assert(seq!['0'].last() == '0');
        assert(digits_value(seq!['0']) == digits_value(seq!['0'].drop_last()) * 10 + ('0' as int
            - '0' as int));
        assert(digits_value(seq!['0']) == 0);
        assert(digits_value(p) == digits_value(seq!['0']) * 10 + (digit_char(x as int) as int
            - '0' as int));
    } else {
        lemma_decimal_reads_back(x / 10);
        assert(decimal(x) == decimal(x / 10).push(digit_char((x % 10) as int)));
        if x < 100 {
            assert(x / 10 < 10);
            assert(decimal(x / 10) == seq![digit_char((x / 10) as int)]);
        }
    }
}

/// A clock reading reads back: its last two characters are the seconds of
/// the minute, after a colon and the two characters of the minutes of the
/// hour; from one hour on, a colon and the whole hours come first, and
/// before that nothing does. Every other character is a digit.
pub proof fn lemma_clock_reads_back(n: nat)
    ensures
        ({
            let t = clock_text(n);
            let len = t.len() as int;
            &&& len >= 5
            &&& t[len - 3] == ':'
            &&& digits_value(t.subrange(len - 2, len)) == n % 60
            &&& digits_value(t.subrange(len - 5, len - 3)) == (n / 60) % 60
            &&& n < 3600 ==> len == 5
            &&& n >= 3600 ==> len >= 7 && t[len - 6] == ':' && digits_value(t.subrange(0, len - 6))
                == n / 3600
            &&& forall|k: int| 0 <= k < len ==> (#[trigger] t[k] == ':' || is_digit(t[k]))
        }),
{
    let hours = n / 3600;
    let minutes = (n % 3600) / 60;
    let secs = n % 60;
    assert(minutes == (n / 60) % 60);
    lemma_pad2_reads_back(hours);
    lemma_pad2_reads_back(minutes);
    lemma_pad2_reads_back(secs);
    let pm = pad2(minutes);
    let ps = pad2(secs);
    let tail = pm + seq![':'] + ps;
    let t = clock_text(n);
    let len = t.len() as int;
    if hours > 0 {
        let ph = pad2(hours);
        assert(t == ph + seq![':'] + tail);
        assert(t.subrange(len - 2, len) =~= ps);
        assert(t.subrange(len - 5, len - 3) =~= pm);
        assert(t.subrange(0, len - 6) =~= ph);
        assert(t[len - 3] == ':');
        assert(t[len - 6] == ':');
        assert forall|k: int| 0 <= k < len implies (#[trigger] t[k] == ':' || is_digit(t[k])) by {
            if k < ph.len() {
                assert(t[k] == ph[k]);
            } else if k > ph.len() && k < ph.len() + 3 {
                assert(t[k] == pm[k - ph.len() - 1]);
            } else if k > ph.len() + 3 {
                assert(t[k] == ps[k - ph.len() - 4]);
            }
        }
    } else {
        assert(t == tail);
        assert(t.subrange(len - 2, len) =~= ps);
        assert(t.subrange(len - 5, len - 3) =~= pm);
        assert forall|k: int| 0 <= k < len implies (#[trigger] t[k] == ':' || is_digit(t[k])) by {
            if k < 2 {
                assert(t[k] == pm[k]);
            } else if k > 2 {
                assert(t[k] == ps[k - 3]);
            }
        }
    }
}

/// Whole seconds elapsed at `ms` milliseconds (none before the start).
pub open spec fn whole_seconds(ms: int) -> nat {
    if ms < 0 {
        0
    } else {
        (ms / 1000) as nat
    }
}

/// Appends `n` in decimal.
pub(crate) fn push_decimal(s: &mut String, n: u64)
    ensures
        final(s)@ == old(s)@ + decimal(n as nat),
    decreases n,
{
    if n >= 10 {
        push_decimal(s, n / 10);
    }
    let d = (n % 10) as u32;
    let c = (('0' as u32 + d) as u8) as char;
    push_char(s, c);
    proof {
        if n < 10 {
            assert(n % 10 == n);
        }
    }
}

/// Appends `n` in decimal with at least two digits.
pub(crate) fn push_pad2(s: &mut String, n: u64)
    ensures
        final(s)@ == old(s)@ + pad2(n as nat),
{
    if n < 10 {
        push_char(s, '0');
    }
    push_decimal(s, n);
    proof {
        if n < 10 {
            assert(decimal(n as nat) == seq![digit_char(n as int)]);
        }
    }
}

/// `seconds` as `MM:SS`, or `HH:MM:SS` from one hour on.
pub fn format_clock(seconds: u64) -> (r: String)
    ensures
        r@ == clock_text(seconds as nat),
{
    let hours = seconds / 3600;
    let minutes = (seconds % 3600) / 60;
    let secs = seconds % 60;
    let mut out = String::new();
    if hours > 0 {
        push_pad2(&mut out, hours);
        push_char(&mut out, ':');
    }
    push_pad2(&mut out, minutes);
    push_char(&mut out, ':');
    push_pad2(&mut out, secs);
    assert(out@ =~= clock_text(seconds as nat));
    out
}

/// The time `ms` (milliseconds) as a clock reading of whole seconds.
pub fn format_timestamp(ms: i64) -> (r: String)
    ensures
        r@ == clock_text(whole_seconds(ms as int)),
{
    let secs: u64 = if ms < 0 {
        0
    } else {
        (ms / 1000) as u64
    };
    format_clock(secs)
}

/// Whole seconds elapsed at sample `sample` of audio at `rate` Hz.
pub open spec fn sample_seconds(sample: int, rate: int) -> int {
    sample / rate
}

/// Whole seconds at which a chunk starting at sample `start` and lasting at
/// most `chunk_ms` milliseconds ends, in a recording of `total` samples.
pub open spec fn chunk_end_seconds(start: int, chunk_ms: int, total: int, rate: int) -> int {
    let reach = (start * 1000 + chunk_ms * rate) / (1000 * rate);
    let whole = total / rate;
    if reach < whole {
        reach
    } else {
        whole
    }
}

/// The line announcing chunk `index` of `count`, which starts at sample
/// `start` and lasts at most `chunk_ms` milliseconds of a recording of
/// `total` samples at `rate` Hz: `[i/n] Processing MM:SS-MM:SS...`, or just
/// `Processing...` when the recording is a single chunk.
pub open spec fn progress_line_spec(
    index: nat,
    count: nat,
    start: int,
    chunk_ms: int,
    total: int,
    rate: int,
) -> Seq<char> {
    if count <= 1 {
        "Processing..."@
    } else {
        seq!['['] + decimal(index) + seq!['/'] + decimal(count) + "] Processing "@ + clock_text(
            sample_seconds(start, rate) as nat,
        ) + seq!['-'] + clock_text(chunk_end_seconds(start, chunk_ms, total, rate) as nat)
            + "..."@
    }
}

/// The progress line for a chunk about to be transcribed.
pub fn chunk_progress_line(
    chunk_index: usize,
    total_chunks: usize,
    start_sample: usize,
    chunk_duration_ms: u64,
    total_samples: usize,
    sample_rate: u32,
) -> (r: String)
    requires
        sample_rate > 0,
    ensures
        r@ == progress_line_spec(
            chunk_index as nat,
            total_chunks as nat,
            start_sample as int,
            chunk_duration_ms as int,
            total_samples as int,
            sample_rate as int,
        ),
{
    if total_chunks <= 1 {
        let r = String::from_str("Processing...");
        proof {
            reveal_strlit("Processing...");
        }
        return r;
    }
    let rate = sample_rate as u128;
    assert((start_sample as int) * 1000 <= 0xffff_ffff_ffff_ffff * 1000) by (nonlinear_arith)
        requires
            start_sample <= 0xffff_ffff_ffff_ffff,
    ;
    assert((chunk_duration_ms as int) * (sample_rate as int) <= 0xffff_ffff_ffff_ffff
        * 0xffff_ffff) by (nonlinear_arith)
        requires
            chunk_duration_ms <= 0xffff_ffff_ffff_ffff,
            sample_rate <= 0xffff_ffff,
    ;
    assert(1000 * (sample_rate as int) >= 1000) by (nonlinear_arith)
        requires
            sample_rate >= 1,
    ;
    let start_secs = (start_sample as u128 / rate) as u64;
    let reach = ((start_sample as u128) * 1000 + (chunk_duration_ms as u128) * rate) / (1000 * rate);
    let whole = total_samples as u128 / rate;
    let end_secs = if reach < whole {
        reach as u64
    } else {
        whole as u64
    };
    let mut out = String::new();
    push_char(&mut out, '[');
    push_decimal(&mut out, chunk_index as u64);
    push_char(&mut out, '/');
    push_decimal(&mut out, total_chunks as u64);
    out.append("] Processing ");
    let start_text = format_clock(start_secs);
    out.append(start_text.as_str());
    push_char(&mut out, '-');
    let end_text = format_clock(end_secs);
    out.append(end_text.as_str());
    out.append("...");
    proof {
        reveal_strlit("] Processing ");
        reveal_strlit("...");
    }
    assert(out@ =~= progress_line_spec(
        chunk_index as nat,
        total_chunks as nat,
        start_sample as int,
        chunk_duration_ms as int,
        total_samples as int,
        sample_rate as int,
    ));
    out
}

/// The words of `s`: its maximal runs of characters that are not white space.
pub open spec fn words(s: Seq<char>) -> Seq<Seq<char>>
    decreases s.len(),
{
    if s.len() == 0 {
        seq![]
    } else {
        let before = words(s.drop_last());
        let c = s.last();
        if is_white(c) {
            before
        } else if s.len() >= 2 && !is_white(s[s.len() - 2]) {
            before.update(before.len() - 1, before.last().push(c))
        } else {
            before.push(seq![c])
        }
    }
}

/// Lines and the line being filled, after wrapping `ws` to `width` bytes
/// with continuation lines starting with `indent`.
pub open spec fn wrap_state(ws: Seq<Seq<char>>, width: int, indent: Seq<char>) -> (
    Seq<Seq<char>>,
    Seq<char>,
)
    decreases ws.len(),
{
    if ws.len() == 0 {
        (seq![], seq![])
    } else {
        let (lines, line) = wrap_state(ws.drop_last(), width, indent);
        let word = ws.last();
        if line.len() == 0 {
            (lines, word)
        } else if utf8_len(line) + 1 + utf8_len(word) > width {
            (lines.push(line), indent + word)
        } else {
            (lines, line + seq![' '] + word)
        }
    }
}

/// The lines joined with newlines between them.
pub open spec fn join_lines(lines: Seq<Seq<char>>) -> Seq<char>
    decreases lines.len(),
{
    if lines.len() == 0 {
        seq![]
    } else if lines.len() == 1 {
        lines[0]
    } else {
        join_lines(lines.drop_last()) + seq!['\n'] + lines.last()
    }
}

/// The words of `text`, greedily packed into lines of at most `width` bytes
/// (a word longer than that gets a line of its own), continuation lines
/// starting with `indent`, joined with newlines.
pub open spec fn wrap_text_spec(text: Seq<char>, width: int, indent: Seq<char>) -> Seq<char> {
    let (lines, line) = wrap_state(words(text), width, indent);
    join_lines(if line.len() > 0 { lines.push(line) } else { lines })
}

proof fn lemma_utf8_len_append(a: Seq<char>, b: Seq<char>)
    ensures
        utf8_len(a + b) == utf8_len(a) + utf8_len(b),
    decreases b.len(),
{
    if b.len() > 0 {
        lemma_utf8_len_append(a, b.drop_last());
        assert((a + b).drop_last() =~= a + b.drop_last());
    } else {
        assert(a + b =~= a);
    }
}

proof fn lemma_utf8_len_bound(a: Seq<char>)
    ensures
        utf8_len(a) <= 4 * a.len(),
    decreases a.len(),
{
    if a.len() > 0 {
        lemma_utf8_len_bound(a.drop_last());
    }
}

/// Byte length of `chars[from..to]` in UTF-8.
fn utf8_len_of(chars: &Vec<char>, from: usize, to: usize) -> (r: u128)
    requires
        from <= to <= chars.len(),
    ensures
        r == utf8_len(chars@.subrange(from as int, to as int)),
{
    let mut total: u128 = 0;
    let mut i = from;
    while i < to
        invariant
            from <= i <= to <= chars.len(),
            total == utf8_len(chars@.subrange(from as int, i as int)),
            total <= 4 * (i - from),
        decreases to - i,
    {
        let n = char_len_utf8(chars[i]);
        assert(chars@.subrange(from as int, i + 1).drop_last() =~= chars@.subrange(
            from as int,
            i as int,
        ));
        total = total + (n as u128);
        i = i + 1;
    }
    total
}

/// Extending the text by a white-space character leaves its words unchanged;
/// by another character it extends the last word or starts a new one.
proof fn lemma_words_push(s: Seq<char>, c: char)
    ensures
        words(s.push(c)) == if is_white(c) {
            words(s)
        } else if s.len() >= 1 && !is_white(s.last()) {
            words(s).update(words(s).len() - 1, words(s).last().push(c))
        } else {
            words(s).push(seq![c])
        },
{
    assert(s.push(c).drop_last() =~= s);
    if s.len() >= 1 {
        assert(s.push(c)[s.len() - 1] == s.last());
    }
}

/// Words of a text are never empty, and a text ending in a non-white
/// character has a last word that ends with it.
proof fn lemma_words_shape(s: Seq<char>)
    ensures
        s.len() > 0 && !is_white(s.last()) ==> words(s).len() > 0,
    decreases s.len(),
{
    if s.len() > 0 {
        lemma_words_shape(s.drop_last());
    }
}

/// Wraps `text` into lines of at most `width` bytes, continuation lines
/// starting with `indent`, and joins them with newlines.
pub fn wrap_text(text: &str, width: usize, indent: &str) -> (r: String)
    ensures
        r@ == wrap_text_spec(text@, width as int, indent@),
{
    let chars = chars_of(text);
    let ind = chars_of(indent);
    let ind_bytes = utf8_len_of(&ind, 0, ind.len());
    assert(ind@.subrange(0, ind.len() as int) =~= ind@);
    let mut out = String::new();
    let mut have_lines = false;
    let ghost mut lines: Seq<Seq<char>> = seq![];
    let mut line: Vec<char> = Vec::new();
    let mut line_bytes: u128 = 0;
    let mut i: usize = 0;
    proof {
        lemma_utf8_len_bound(ind@);
    }
    while i < chars.len()
        invariant
            i <= chars.len(),
            ind_bytes == utf8_len(ind@),
            ind_bytes <= 4 * ind.len(),
            i == chars.len() || is_white(chars@[i as int]) || i == 0 || is_white(chars@[i - 1]),
            (lines, line@) == wrap_state(words(chars@.subrange(0, i as int)), width as int, ind@),
            line_bytes == utf8_len(line@),
            line@.len() <= ind.len() + 2 * i,
            out@ == join_lines(lines),
            have_lines == (lines.len() > 0),
        decreases chars.len() - i,
    {
        if is_white_char(chars[i]) {
            proof {
                lemma_words_push(chars@.subrange(0, i as int), chars@[i as int]);
                assert(chars@.subrange(0, i + 1) =~= chars@.subrange(0, i as int).push(chars@[i as int]));
            }
            i = i + 1;
        } else {
            // a word starts at i: find where it ends
            let start = i;
            let mut j = i;
            while j < chars.len() && !is_white_char(chars[j])
                invariant
                    start <= j <= chars.len(),
                    forall|k: int| start <= k < j ==> !is_white(#[trigger] chars@[k]),
                decreases chars.len() - j,
            {
                j = j + 1;
            }
            let word_bytes = utf8_len_of(&chars, start, j);
            proof {
                lemma_utf8_len_bound(chars@.subrange(start as int, j as int));
                lemma_words_of_word(chars@, start as int, j as int);
            }
            let ghost word = chars@.subrange(start as int, j as int);
            let ghost before = wrap_state(words(chars@.subrange(0, start as int)), width as int, ind@);
            proof {
                let ws = words(chars@.subrange(0, start as int));
                assert(ws.push(word).drop_last() =~= ws);
                assert(ws.push(word).last() == word);
                lemma_utf8_len_bound(line@);
            }
            if line.len() == 0 {
                let mut k = start;
                while k < j
                    invariant
                        start <= k <= j <= chars.len(),
                        line@ == chars@.subrange(start as int, k as int),
                    decreases j - k,
                {
                    line.push(chars[k]);
                    assert(line@ =~= chars@.subrange(start as int, k + 1));
                    k = k + 1;
                }
                line_bytes = word_bytes;
            } else if line_bytes + 1 + word_bytes > (width as u128) {
                if have_lines {
                    push_char(&mut out, '\n');
                }
                push_all(&mut out, &line);
                proof {
                    let old_lines = lines;
                    lines = lines.push(line@);
                    assert(lines.drop_last() =~= old_lines);
                    if old_lines.len() == 0 {
                        assert(out@ =~= join_lines(lines));
                    } else {
                        assert(out@ =~= join_lines(lines));
                    }
                }
                have_lines = true;
                line = Vec::new();
                let mut k: usize = 0;
                while k < ind.len()
                    invariant
                        k <= ind.len(),
                        line@ == ind@.subrange(0, k as int),
                    decreases ind.len() - k,
                {
                    line.push(ind[k]);
                    assert(line@ =~= ind@.subrange(0, k + 1));
                    k = k + 1;
                }
                let mut k = start;
                while k < j
                    invariant
                        start <= k <= j <= chars.len(),
                        line@ == ind@ + chars@.subrange(start as int, k as int),
                    decreases j - k,
                {
                    line.push(chars[k]);
                    assert(line@ =~= ind@ + chars@.subrange(start as int, k + 1));
                    k = k + 1;
                }
                assert(ind@.subrange(0, ind.len() as int) =~= ind@);
                proof {
                    lemma_utf8_len_append(ind@, word);
                }
                line_bytes = ind_bytes + word_bytes;
            } else {
                line.push(' ');
                let mut k = start;
                let ghost base = line@;
                while k < j
                    invariant
                        start <= k <= j <= chars.len(),
                        line@ == base + chars@.subrange(start as int, k as int),
                    decreases j - k,
                {
                    line.push(chars[k]);
                    assert(line@ =~= base + chars@.subrange(start as int, k + 1));
                    k = k + 1;
                }
                proof {
                    assert(base =~= before.1 + seq![' ']);
                    assert(line@ =~= before.1 + seq![' '] + word);
                    lemma_utf8_len_append(before.1, seq![' ']);
                    lemma_utf8_len_append(before.1 + seq![' '], word);
                    assert(utf8_len(seq![' ']) == 1) by {
                        assert(seq![' '].drop_last() =~= Seq::<char>::empty());
                        assert(seq![' '].last() == ' ');
                        assert(utf8_len(Seq::<char>::empty()) == 0);
                        assert(char_utf8_len(' ') == 1);
                    }
                }
                line_bytes = line_bytes + 1 + word_bytes;
            }
            i = j;
        }
    }
    assert(chars@.subrange(0, chars.len() as int) =~= chars@);
    if line.len() > 0 {
        if have_lines {
            push_char(&mut out, '\n');
        }
        push_all(&mut out, &line);
        proof {
            let old_lines = lines;
            lines = lines.push(line@);
            assert(lines.drop_last() =~= old_lines);
            assert(out@ =~= join_lines(lines));
        }
    }
    out
}

/// The words of `s[..j]`, where `s[start..j]` is a whole word preceded by
/// white space (or the start), are those of `s[..start]` followed by it.
proof fn lemma_words_of_word(s: Seq<char>, start: int, j: int)
    requires
        0 <= start < j <= s.len(),
        start == 0 || is_white(s[start - 1]),
        forall|k: int| start <= k < j ==> !is_white(#[trigger] s[k]),
    ensures
        words(s.subrange(0, j)) == words(s.subrange(0, start)).push(s.subrange(start, j)),
    decreases j - start,
{
    let pre = s.subrange(0, j - 1);
    assert(s.subrange(0, j) =~= pre.push(s[j - 1]));
    lemma_words_push(pre, s[j - 1]);
    if j - 1 == start {
        if start > 0 {
            assert(pre.last() == s[start - 1]);
        }
        assert(s.subrange(start, j) =~= seq![s[j - 1]]);
    } else {
        lemma_words_of_word(s, start, j - 1);
        assert(pre.last() == s[j - 2]);
        assert(s.subrange(start, j) =~= s.subrange(start, j - 1).push(s[j - 1]));
    }
}


/// `w` is a word: some characters, none of them white space.
pub open spec fn is_word(w: Seq<char>) -> bool {
    w.len() > 0 && forall|k: int| 0 <= k < w.len() ==> !is_white(#[trigger] w[k])
}

proof fn lemma_words_of_white(s: Seq<char>)
    requires
        forall|k: int| 0 <= k < s.len() ==> is_white(#[trigger] s[k]),
    ensures
        words(s) == Seq::<Seq<char>>::empty(),
    decreases s.len(),
{
    if s.len() > 0 {
        lemma_words_of_white(s.drop_last());
        assert(is_white(s[s.len() - 1]));
    }
}

proof fn lemma_words_of_one_word(w: Seq<char>)
    requires
        is_word(w),
    ensures
        words(w) == seq![w],
    decreases w.len(),
{
    let w1 = w.drop_last();
    assert(w =~= w1.push(w.last()));
    assert(!is_white(w[w.len() - 1]));
    lemma_words_push(w1, w.last());
    if w.len() == 1 {
        assert(w1.len() == 0);
        assert(words(w1) =~= Seq::<Seq<char>>::empty());
        assert(seq![w.last()] =~= w);
    } else {
        assert forall|k: int| 0 <= k < w1.len() implies !is_white(#[trigger] w1[k]) by {
            assert(w1[k] == w[k]);
        }
        lemma_words_of_one_word(w1);
        assert(!is_white(w1.last())) by {
            assert(w1.last() == w[w1.len() - 1]);
        }
        assert(words(w) =~= seq![w]);
    }
}

/// The words of a text are words.
proof fn lemma_words_are_words(s: Seq<char>)
    ensures
        forall|k: int| 0 <= k < words(s).len() ==> is_word(#[trigger] words(s)[k]),
    decreases s.len(),
{
    if s.len() > 0 {
        let s1 = s.drop_last();
        lemma_words_are_words(s1);
        assert(s =~= s1.push(s.last()));
        lemma_words_push(s1, s.last());
        let c = s.last();
        if !is_white(c) {
            if s1.len() >= 1 && !is_white(s1.last()) {
                lemma_words_shape(s1);
                let ws1 = words(s1);
                let lw = ws1.last().push(c);
                assert(is_word(ws1[ws1.len() - 1]));
                assert forall|k: int| 0 <= k < lw.len() implies !is_white(#[trigger] lw[k]) by {
                    if k < lw.len() - 1 {
                        assert(lw[k] == ws1[ws1.len() - 1][k]);
                    }
                }
                assert forall|k: int| 0 <= k < words(s).len() implies is_word(
                    #[trigger] words(s)[k],
                ) by {
                    if k < ws1.len() - 1 {
                        assert(words(s)[k] == ws1[k]);
                    } else {
                        assert(words(s)[k] == lw);
                    }
                }
            } else {
                assert forall|k: int| 0 <= k < words(s).len() implies is_word(
                    #[trigger] words(s)[k],
                ) by {
                    if k < words(s1).len() {
                        assert(words(s)[k] == words(s1)[k]);
                    } else {
                        assert(words(s)[k] == seq![c]);
                    }
                }
            }
        }
    }
}

/// The words of two texts put together are those of each, in order, when
/// white space (or an end of text) separates them.
proof fn lemma_words_concat(a: Seq<char>, b: Seq<char>)
    requires
        a.len() == 0 || b.len() == 0 || is_white(a.last()) || is_white(b[0]),
    ensures
        words(a + b) == words(a) + words(b),
    decreases b.len(),
{
    if b.len() == 0 {
        assert(a + b =~= a);
        assert(words(b) =~= Seq::<Seq<char>>::empty());
        assert(words(a) + words(b) =~= words(a));
    } else {
        let b1 = b.drop_last();
        let c = b.last();
        if b1.len() > 0 {
            assert(b1[0] == b[0]);
        }
        lemma_words_concat(a, b1);
        assert(a + b =~= (a + b1).push(c));
        assert(b =~= b1.push(c));
        lemma_words_push(a + b1, c);
        lemma_words_push(b1, c);
        if is_white(c) {
        } else if b1.len() >= 1 {
            assert((a + b1).last() == b1.last());
            if !is_white(b1.last()) {
                lemma_words_shape(b1);
                let wa = words(a);
                let wb = words(b1);
                assert((wa + wb).update((wa + wb).len() - 1, (wa + wb).last().push(c)) =~= wa
                    + wb.update(wb.len() - 1, wb.last().push(c)));
            } else {
                assert((words(a) + words(b1)).push(seq![c]) =~= words(a) + words(b1).push(seq![c]));
            }
        } else {
            assert(a + b1 =~= a);
            assert(words(b1) =~= Seq::<Seq<char>>::empty());
            assert(b[0] == c);
            assert(words(a).push(seq![c]) =~= words(a) + Seq::<Seq<char>>::empty().push(seq![c]));
        }
    }
}

proof fn lemma_join_extend(lines: Seq<Seq<char>>, x: Seq<char>, y: Seq<char>)
    ensures
        join_lines(lines.push(x + y)) == join_lines(lines.push(x)) + y,
{
    assert(lines.push(x + y).drop_last() =~= lines);
    assert(lines.push(x).drop_last() =~= lines);
    if lines.len() > 0 {
        assert(join_lines(lines) + seq!['\n'] + (x + y) =~= join_lines(lines) + seq!['\n'] + x + y);
    }
}

/// Wrapping the words `ws` puts down exactly those words.
proof fn lemma_wrap_state_words(ws: Seq<Seq<char>>, width: int, indent: Seq<char>)
    requires
        forall|k: int| 0 <= k < ws.len() ==> is_word(#[trigger] ws[k]),
        forall|k: int| 0 <= k < indent.len() ==> is_white(#[trigger] indent[k]),
    ensures
        ws.len() == 0 ==> wrap_state(ws, width, indent).0.len() == 0 && wrap_state(
            ws,
            width,
            indent,
        ).1.len() == 0,
        ws.len() > 0 ==> wrap_state(ws, width, indent).1.len() > 0 && words(
            join_lines(wrap_state(ws, width, indent).0.push(wrap_state(ws, width, indent).1)),
        ) == ws,
    decreases ws.len(),
{
    if ws.len() > 0 {
        let ws1 = ws.drop_last();
        let word = ws.last();
        assert(is_word(ws[ws.len() - 1]));
        assert forall|k: int| 0 <= k < ws1.len() implies is_word(#[trigger] ws1[k]) by {
            assert(ws1[k] == ws[k]);
        }
        lemma_wrap_state_words(ws1, width, indent);
        let (l1, line1) = wrap_state(ws1, width, indent);
        lemma_words_of_one_word(word);
        if line1.len() == 0 {
            assert(ws1.len() == 0);
            assert(l1.push(word) =~= seq![word]);
            assert(ws =~= seq![word]);
        } else if utf8_len(line1) + 1 + utf8_len(word) > width {
            let joined = join_lines(l1.push(line1));
            let nl = joined + seq!['\n'];
            let lines = l1.push(line1).push(indent + word);
            assert(lines.drop_last() =~= l1.push(line1));
            assert(join_lines(lines) == joined + seq!['\n'] + (indent + word));
            lemma_words_of_white(seq!['\n']);
            lemma_words_concat(joined, seq!['\n']);
            assert(words(nl) =~= words(joined));
            lemma_words_of_white(indent);
            lemma_words_concat(nl, indent);
            assert(words(nl + indent) =~= words(nl));
            assert((nl + indent).last() == '\n' || is_white((nl + indent).last())) by {
                if indent.len() > 0 {
                    assert((nl + indent).last() == indent[indent.len() - 1]);
                } else {
                    assert(nl + indent =~= nl);
                }
            }
            lemma_words_concat(nl + indent, word);
            assert(joined + seq!['\n'] + (indent + word) =~= (nl + indent) + word);
            assert(ws =~= ws1 + seq![word]);
        } else {
            let joined = join_lines(l1.push(line1));
            lemma_join_extend(l1, line1 + seq![' '], word);
            lemma_join_extend(l1, line1, seq![' ']);
            assert(line1 + seq![' '] + word =~= (line1 + seq![' ']) + word);
            lemma_words_of_white(seq![' ']);
            lemma_words_concat(joined, seq![' ']);
            assert(words(joined + seq![' ']) =~= words(joined));
            lemma_words_concat(joined + seq![' '], word);
            assert(ws =~= ws1 + seq![word]);
        }
    }
}

/// Wrapping keeps every word: the words of the wrapped text are the words
/// of the text, in order, whatever the width, as long as the indent of
/// continuation lines is white space.
pub proof fn lemma_wrap_keeps_words(text: Seq<char>, width: int, indent: Seq<char>)
    requires
        forall|k: int| 0 <= k < indent.len() ==> is_white(#[trigger] indent[k]),
    ensures
        words(wrap_text_spec(text, width, indent)) == words(text),
{
    let ws = words(text);
    lemma_words_are_words(text);
    lemma_wrap_state_words(ws, width, indent);
    if ws.len() == 0 {
        assert(join_lines(Seq::<Seq<char>>::empty()) =~= Seq::<char>::empty());
        assert(words(Seq::<char>::empty()) =~= Seq::<Seq<char>>::empty());
    }
}

/// A line either fits in `width` bytes or holds a single word (too long to
/// share a line).
pub open spec fn fits_or_single(line: Seq<char>, width: int) -> bool {
    utf8_len(line) <= width || words(line).len() == 1
}

/// The line `next` starts a new line only because its first word would not
/// have fitted after `line` (with a space between).
pub open spec fn break_needed(line: Seq<char>, next: Seq<char>, width: int) -> bool {
    words(next).len() > 0 && utf8_len(line) + 1 + utf8_len(words(next)[0]) > width
}

/// `lines` are wrapped to `width`: no line holds a line break or is empty of
/// words, each fits or is a single word, and each break was needed.
pub open spec fn wrapped_lines(lines: Seq<Seq<char>>, width: int) -> bool {
    &&& forall|k: int| 0 <= k < lines.len() ==> !(#[trigger] lines[k]).contains('\n')
    &&& forall|k: int| 0 <= k < lines.len() ==> words(#[trigger] lines[k]).len() >= 1
    &&& forall|k: int| 0 <= k < lines.len() ==> fits_or_single(#[trigger] lines[k], width)
    &&& forall|k: int| 0 <= k < lines.len() - 1 ==> break_needed(#[trigger] lines[k], lines[k + 1], width)
}

proof fn lemma_word_has_no_break(w: Seq<char>)
    requires
        is_word(w),
    ensures
        !w.contains('\n'),
{
    if w.contains('\n') {
        let k = choose|k: int| 0 <= k < w.len() && w[k] == '\n';
        assert(!is_white(w[k]));
    }
}

proof fn lemma_wrap_state_layout(ws: Seq<Seq<char>>, width: int, indent: Seq<char>)
    requires
        forall|k: int| 0 <= k < ws.len() ==> is_word(#[trigger] ws[k]),
        forall|k: int| 0 <= k < indent.len() ==> is_white(#[trigger] indent[k]),
        !indent.contains('\n'),
    ensures
        ws.len() > 0 ==> wrapped_lines(
            wrap_state(ws, width, indent).0.push(wrap_state(ws, width, indent).1),
            width,
        ),
    decreases ws.len(),
{
    if ws.len() > 0 {
        let ws1 = ws.drop_last();
        let word = ws.last();
        assert(is_word(ws[ws.len() - 1]));
        assert forall|k: int| 0 <= k < ws1.len() implies is_word(#[trigger] ws1[k]) by {
            assert(ws1[k] == ws[k]);
        }
        lemma_wrap_state_layout(ws1, width, indent);
        lemma_wrap_state_words(ws1, width, indent);
        let (l1, line1) = wrap_state(ws1, width, indent);
        let all1 = l1.push(line1);
        lemma_words_of_one_word(word);
        lemma_word_has_no_break(word);
        if line1.len() == 0 {
            assert(ws1.len() == 0);
            let all = l1.push(word);
            assert(all =~= seq![word]);
            assert(words(all[0]).len() == 1);
        } else if utf8_len(line1) + 1 + utf8_len(word) > width {
            let nl = indent + word;
            let all = all1.push(nl);
            lemma_words_of_white(indent);
            lemma_words_concat(indent, word);
            assert(words(nl) =~= seq![word]);
            assert(!nl.contains('\n')) by {
                if nl.contains('\n') {
                    let k = choose|k: int| 0 <= k < nl.len() && nl[k] == '\n';
                    if k < indent.len() {
                        assert(indent[k] == '\n');
                    } else {
                        assert(word[k - indent.len()] == '\n');
                    }
                }
            }
            assert forall|k: int| 0 <= k < all.len() implies !(#[trigger] all[k]).contains('\n')
                && words(all[k]).len() >= 1 && fits_or_single(all[k], width) by {
                if k < all1.len() {
                    assert(all[k] == all1[k]);
                }
            }
            assert forall|k: int| 0 <= k < all.len() - 1 implies break_needed(
                #[trigger] all[k],
                all[k + 1],
                width,
            ) by {
                if k < all1.len() - 1 {
                    assert(all[k] == all1[k] && all[k + 1] == all1[k + 1]);
                    assert(break_needed(all1[k], all1[k + 1], width));
                } else {
                    assert(all[k] == line1 && all[k + 1] == nl);
                }
            }
        } else {
            let sp = seq![' '];
            let nl = line1 + sp + word;
            let all = l1.push(nl);
            assert(all =~= all1.update(all1.len() - 1, nl));
            assert(all1[all1.len() - 1] == line1);
            lemma_utf8_len_append(line1 + sp, word);
            lemma_utf8_len_append(line1, sp);
            assert(sp.drop_last() =~= Seq::<char>::empty());
            assert(utf8_len(sp.drop_last()) == 0);
            assert((' ' as u32) == 0x20u32);
            assert(char_utf8_len(' ') == 1);
            assert(utf8_len(sp) == 1);
            lemma_words_of_white(sp);
            lemma_words_concat(line1, sp);
            assert(line1 + sp =~= line1 + sp);
            lemma_words_concat(line1 + sp, word);
            assert(words(line1 + sp) =~= words(line1));
            assert(words(nl) == words(line1) + seq![word]);
            assert(words(line1).len() >= 1);
            assert(words(nl)[0] == words(line1)[0]);
            assert(!nl.contains('\n')) by {
                if nl.contains('\n') {
                    let k = choose|k: int| 0 <= k < nl.len() && nl[k] == '\n';
                    if k < line1.len() {
                        assert(line1[k] == '\n');
                        assert(line1.contains('\n'));
                    } else if k == line1.len() {
                        assert(nl[k] == ' ');
                    } else {
                        assert(word[k - line1.len() - 1] == '\n');
                    }
                }
            }
            assert forall|k: int| 0 <= k < all.len() implies !(#[trigger] all[k]).contains('\n')
                && words(all[k]).len() >= 1 && fits_or_single(all[k], width) by {
                if k < all1.len() - 1 {
                    assert(all[k] == all1[k]);
                }
            }
            assert forall|k: int| 0 <= k < all.len() - 1 implies break_needed(
                #[trigger] all[k],
                all[k + 1],
                width,
            ) by {
                assert(all[k] == all1[k]);
                assert(break_needed(all1[k], all1[k + 1], width));
                if k + 1 == all.len() - 1 {
                    assert(all[k + 1] == nl);
                } else {
                    assert(all[k + 1] == all1[k + 1]);
                }
            }
        }
    }
}

/// Wrapping fills lines greedily: the wrapped text is its lines joined by
/// line breaks, where every line holds at least one word and either fits in
/// `width` bytes or is a single word, and every line break was needed,
/// because the next word would not have fitted on the line before it. The
/// indent of continuation lines is white space without a line break.
pub proof fn lemma_wrap_fills_lines(text: Seq<char>, width: int, indent: Seq<char>)
    requires
        forall|k: int| 0 <= k < indent.len() ==> is_white(#[trigger] indent[k]),
        !indent.contains('\n'),
    ensures
        exists|lines: Seq<Seq<char>>|
            #[trigger] join_lines(lines) == wrap_text_spec(text, width, indent) && wrapped_lines(
                lines,
                width,
            ),
{
    let ws = words(text);
    lemma_words_are_words(text);
    lemma_wrap_state_words(ws, width, indent);
    lemma_wrap_state_layout(ws, width, indent);
    let (lines, line) = wrap_state(ws, width, indent);
    if ws.len() > 0 {
        let all = lines.push(line);
        assert(join_lines(all) == wrap_text_spec(text, width, indent));
        assert(wrapped_lines(all, width));
    } else {
        let none = Seq::<Seq<char>>::empty();
        assert(join_lines(none) == wrap_text_spec(text, width, indent));
        assert(wrapped_lines(none, width));
    }
}

/// The `[start->end]` stamp of a segment.
pub open spec fn stamp(seg: SegmentView) -> Seq<char> {
    seq!['['] + clock_text(whole_seconds(seg.start)) + seq!['-', '>'] + clock_text(
        whole_seconds(seg.end),
    ) + seq![']']
}

/// The text that opens a segment's line: two spaces, the stamp, a space.
pub open spec fn line_prefix(seg: SegmentView) -> Seq<char> {
    seq![' ', ' '] + stamp(seg) + seq![' ']
}

/// One space for every byte of `prefix`.
pub open spec fn indent_for(prefix: Seq<char>) -> Seq<char> {
    Seq::new(utf8_len(prefix), |i: int| ' ')
}

/// `width` less `used`, or zero.
pub open spec fn saturating_sub(width: int, used: int) -> int {
    if width > used {
        width - used
    } else {
        0
    }
}

/// The lines of one segment: the prefix, then the trimmed text wrapped to
/// what is left of `width`, continuation lines indented under the text.
pub open spec fn segment_text(seg: SegmentView, width: int) -> Seq<char> {
    let prefix = line_prefix(seg);
    let wrapped = wrap_text_spec(
        trim_spec(seg.content),
        saturating_sub(width, utf8_len(prefix) as int),
        indent_for(prefix),
    );
    prefix + trim_start_spec(wrapped) + seq!['\n']
}

/// The heading that opens a speaker's turn.
pub open spec fn speaker_heading(speaker: int) -> Seq<char> {
    seq!['S', 'p', 'e', 'a', 'k', 'e', 'r', ' '] + signed_decimal(speaker) + seq![':', '\n']
}

/// The transcript as text: each run of segments of one speaker under a
/// heading naming the speaker (runs separated by a blank line), one
/// stamped, wrapped paragraph per segment.
pub open spec fn format_segments_spec(segs: Seq<SegmentView>, width: int) -> Seq<char>
    decreases segs.len(),
{
    if segs.len() == 0 {
        seq![]
    } else {
        let before = format_segments_spec(segs.drop_last(), width);
        let seg = segs.last();
        let changed = segs.len() == 1 || segs[segs.len() - 2].speaker != seg.speaker;
        let heading = if changed {
            (if before.len() > 0 {
                seq!['\n']
            } else {
                seq![]
            }) + speaker_heading(seg.speaker)
        } else {
            seq![]
        };
        before + heading + segment_text(seg, width)
    }
}

proof fn lemma_format_nonempty(segs: Seq<SegmentView>, width: int)
    requires
        segs.len() > 0,
    ensures
        format_segments_spec(segs, width).len() > 0,
{
    let seg = segs.last();
    assert(segment_text(seg, width).len() > 0) by {
        let prefix = line_prefix(seg);
        let w = wrap_text_spec(
            trim_spec(seg.content),
            saturating_sub(width, utf8_len(prefix) as int),
            indent_for(prefix),
        );
        assert(segment_text(seg, width) == prefix + trim_start_spec(w) + seq!['\n']);
    }
}

/// How the text of two runs of segments relates to the text of both: when
/// the speaker changes between them, it is the two texts with a blank line
/// between (each opening with its own speaker heading); when the same
/// speaker goes on, the second text loses its heading and follows the
/// first directly.
pub proof fn lemma_format_segments_concat(a: Seq<SegmentView>, b: Seq<SegmentView>, width: int)
    requires
        a.len() > 0,
        b.len() > 0,
    ensures
        a.last().speaker != b[0].speaker ==> format_segments_spec(a + b, width)
            == format_segments_spec(a, width) + seq!['\n'] + format_segments_spec(b, width),
        a.last().speaker == b[0].speaker ==> {
            let heading = speaker_heading(b[0].speaker);
            let rest = format_segments_spec(b, width).skip(heading.len() as int);
            &&& format_segments_spec(b, width) == heading + rest
            &&& format_segments_spec(a + b, width) == format_segments_spec(a, width) + rest
        },
    decreases b.len(),
{
    let ab = a + b;
    let seg = b.last();
    let st = segment_text(seg, width);
    let heading = speaker_heading(b[0].speaker);
    assert(ab.drop_last() =~= a + b.drop_last());
    assert(ab.last() == seg);
    lemma_format_nonempty(a, width);
    if b.len() == 1 {
        assert(b.drop_last() =~= Seq::<SegmentView>::empty());
        assert(format_segments_spec(b.drop_last(), width) =~= Seq::<char>::empty());
        assert(ab[ab.len() - 2] == a.last());
        assert(seg == b[0]);
        assert(a + b.drop_last() =~= a);
        assert(format_segments_spec(b, width) =~= heading + st);
        assert((heading + st).skip(heading.len() as int) =~= st);
        if a.last().speaker != b[0].speaker {
            assert(format_segments_spec(ab, width) =~= format_segments_spec(a, width) + seq!['\n']
                + format_segments_spec(b, width));
        } else {
            assert(format_segments_spec(ab, width) =~= format_segments_spec(a, width) + st);
        }
    } else {
        let b1 = b.drop_last();
        assert(b1[0] == b[0]);
        lemma_format_segments_concat(a, b1, width);
        lemma_format_nonempty(a + b1, width);
        lemma_format_nonempty(b1, width);
        assert(ab[ab.len() - 2] == b1.last());
        assert(b[b.len() - 2] == b1.last());
        let changed = b1.last().speaker != seg.speaker;
        let h = if changed {
            seq!['\n'] + speaker_heading(seg.speaker)
        } else {
            Seq::<char>::empty()
        };
        assert(format_segments_spec(ab, width) == format_segments_spec(a + b1, width) + h + st);
        assert(format_segments_spec(b, width) == format_segments_spec(b1, width) + h + st);
        let fa = format_segments_spec(a, width);
        let fb1 = format_segments_spec(b1, width);
        if a.last().speaker != b[0].speaker {
            assert(format_segments_spec(ab, width) =~= fa + seq!['\n'] + format_segments_spec(
                b,
                width,
            ));
        } else {
            let rest1 = fb1.skip(heading.len() as int);
            assert(fb1 == heading + rest1);
            assert(format_segments_spec(b, width) =~= heading + (rest1 + h + st));
            assert((heading + (rest1 + h + st)).skip(heading.len() as int) =~= rest1 + h + st);
            assert(format_segments_spec(ab, width) =~= fa + (rest1 + h + st));
        }
    }
}

/// Appends `n` in decimal, with a minus sign when negative.
fn push_signed(s: &mut String, n: i64)
    ensures
        final(s)@ == old(s)@ + signed_decimal(n as int),
{
    if n < 0 {
        push_char(s, '-');
        let magnitude: u64 = (0i128 - (n as i128)) as u64;
        push_decimal(s, magnitude);
        assert(final(s)@ =~= old(s)@ + signed_decimal(n as int));
    } else {
        push_decimal(s, n as u64);
    }
}

/// Appends every character of `text`.
fn push_str_chars(s: &mut String, text: &str)
    ensures
        final(s)@ == old(s)@ + text@,
{
    let cs = chars_of(text);
    push_all(s, &cs);
}

/// Appends the heading of a speaker's turn, after a blank line unless it
/// opens the text.
fn push_heading(out: &mut String, speaker: i64)
    ensures
        final(out)@ == old(out)@ + (if old(out)@.len() > 0 {
            seq!['\n']
        } else {
            seq![]
        }) + speaker_heading(speaker as int),
{
    let ghost before = out@;
    if !out.as_str().is_empty() {
        push_char(out, '\n');
    }
    push_str_chars(out, "Speaker ");
    push_signed(out, speaker);
    push_char(out, ':');
    push_char(out, '\n');
    proof {
        reveal_strlit("Speaker ");
        assert(out@ =~= before + (if before.len() > 0 {
            seq!['\n']
        } else {
            seq![]
        }) + speaker_heading(speaker as int));
    }
}

/// Appends the lines of one segment.
fn push_segment_text(out: &mut String, seg: &TranscriptionSegment, width: usize)
    ensures
        final(out)@ == old(out)@ + segment_text(seg@, width as int),
{
    let ghost sv = seg@;
        // the prefix: two spaces, the stamp, a space
        let mut prefix = String::new();
        push_char(&mut prefix, ' ');
        push_char(&mut prefix, ' ');
        push_char(&mut prefix, '[');
        let start_text = format_timestamp(seg.start);
        push_str_chars(&mut prefix, start_text.as_str());
        push_char(&mut prefix, '-');
        push_char(&mut prefix, '>');
        let end_text = format_timestamp(seg.end);
        push_str_chars(&mut prefix, end_text.as_str());
        push_char(&mut prefix, ']');
        push_char(&mut prefix, ' ');
        assert(prefix@ =~= line_prefix(sv));
        let prefix_chars = chars_of(prefix.as_str());
        let prefix_bytes = utf8_len_of(&prefix_chars, 0, prefix_chars.len());
        assert(prefix_chars@.subrange(0, prefix_chars.len() as int) =~= prefix_chars@);
        // the indent: one space per byte of the prefix
        let mut indent = String::new();
        let mut k: usize = 0;
        while k < prefix_chars.len()
            invariant
                k <= prefix_chars.len(),
                indent@ == indent_for(prefix_chars@.subrange(0, k as int)),
            decreases prefix_chars.len() - k,
        {
            let n = char_len_utf8(prefix_chars[k]);
            let mut m: usize = 0;
            let ghost base = indent@;
            while m < n
                invariant
                    m <= n,
                    indent@ == base + Seq::new(m as nat, |i: int| ' '),
                decreases n - m,
            {
                push_char(&mut indent, ' ');
                assert(indent@ =~= base + Seq::new((m + 1) as nat, |i: int| ' '));
                m = m + 1;
            }
            assert(prefix_chars@.subrange(0, k + 1).drop_last() =~= prefix_chars@.subrange(
                0,
                k as int,
            ));
            assert(indent@ =~= indent_for(prefix_chars@.subrange(0, k + 1)));
            k = k + 1;
        }
        let content_width: usize = if (width as u128) > prefix_bytes {
            ((width as u128) - prefix_bytes) as usize
        } else {
            0
        };
        let content_chars = chars_of(seg.content.as_str());
        let (c0, c1) = trim_bounds(&content_chars, 0, content_chars.len());
        assert(content_chars@.subrange(0, content_chars.len() as int) =~= content_chars@);
        let trimmed = string_from_chars(&content_chars, c0, c1);
        let wrapped = wrap_text(trimmed.as_str(), content_width, indent.as_str());
        push_all(out, &prefix_chars);
        let wrapped_chars = chars_of(wrapped.as_str());
        let w0 = skip_white(&wrapped_chars, 0, wrapped_chars.len());
        assert(wrapped_chars@.subrange(0, wrapped_chars.len() as int) =~= wrapped_chars@);
        let rest = string_from_chars(&wrapped_chars, w0, wrapped_chars.len());
        push_str_chars(out, rest.as_str());
        push_char(out, '\n');
    assert(out@ =~= old(out)@ + segment_text(sv, width as int));
}

/// Renders segments as text: a `Speaker N:` heading whenever the speaker
/// changes, then one line per segment with its `[start->end]` stamp and its
/// text wrapped to `width` bytes.
pub fn format_segments(segments: &[TranscriptionSegment], width: usize) -> (r: String)
    ensures
        r@ == format_segments_spec(segs_view(segments@), width as int),
{
    let ghost segs = segs_view(segments@);
    let mut out = String::new();
    let mut last_speaker: Option<i64> = None;
    let mut idx: usize = 0;
    while idx < segments.len()
        invariant
            idx <= segments.len(),
            segs == segs_view(segments@),
            out@ == format_segments_spec(segs.take(idx as int), width as int),
            last_speaker == (if idx == 0 {
                None
            } else {
                Some(segments@[idx - 1].speaker)
            }),
        decreases segments.len() - idx,
    {
        let seg = &segments[idx];
        let ghost sv = seg@;
        let ghost before = out@;
        proof {
            assert(segs.take(idx + 1).drop_last() =~= segs.take(idx as int));
            assert(segs.take(idx + 1).last() == sv);
            if idx > 0 {
                assert(segs.take(idx + 1)[idx - 1] == segments@[idx - 1]@);
            }
        }
        let speaker_changed = match last_speaker {
            Some(sp) => sp != seg.speaker,
            None => true,
        };
        last_speaker = Some(seg.speaker);
        if speaker_changed {
            push_heading(&mut out, seg.speaker);
        }
        let ghost after_heading = out@;
        push_segment_text(&mut out, seg, width);
        proof {
            assert(out@ =~= after_heading + segment_text(sv, width as int));
            if !speaker_changed {
                assert(after_heading == before);
            }
        }
        idx = idx + 1;
    }
    assert(segs.take(segments.len() as int) =~= segs);
    out
}
} // verus!
