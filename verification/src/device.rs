//! Choice of the compute device, as written on the command line.
use vstd::prelude::*;

use crate::error::VibeVoiceCoreError;
use crate::strings::chars_of;
use crate::tensor::cpu_device;
use crate::text::{decimal, lemma_decimal_reads_back};

verus! {

/// Where the model runs: chosen automatically, on the CPU, or on the CUDA
/// device with the given index.
#[derive(Clone, Copy, Debug, PartialEq, Eq, Structural)]
pub enum DeviceSpec {
    Auto,
    Cpu,
    Cuda(usize),
}

impl DeviceSpec {
    /// The device to run on. This build has no CUDA support: `Auto` and
    /// `Cpu` give the host processor, and a CUDA device is refused with
    /// `UnsupportedConfig`.
    pub fn resolve(&self) -> (r: Result<candle_core::Device, VibeVoiceCoreError>)
        ensures
            r is Ok <==> !(*self is Cuda),
            r matches Ok(d) ==> crate::tensor::device_is_cpu(d),
            r matches Err(e) ==> e is UnsupportedConfig,
    {
        match self {
            DeviceSpec::Auto => Ok(cpu_device()),
            DeviceSpec::Cpu => Ok(cpu_device()),
            DeviceSpec::Cuda(_) => Err(
                VibeVoiceCoreError::UnsupportedConfig(
                    String::from_str(
                        "cuda device requested but this build has no CUDA support",
                    ),
                ),
            ),
        }
    }
}

/// Why a device specification was not understood.
#[derive(Clone, Copy, Debug, PartialEq, Eq, Structural)]
pub enum DeviceSpecError {
    /// `cuda:` followed by something that is not a device index.
    InvalidCudaIndex,
    /// Neither `auto`, `cpu` nor `cuda:N`.
    Unsupported,
}

/// `c` with ASCII upper-case letters turned to lower case.
pub open spec fn ascii_lower(c: char) -> char {
    if 'A' <= c <= 'Z' {
        ((c as u32) + 32) as char
    } else {
        c
    }
}

/// `s` and `t` are equal when ASCII letter case is ignored.
pub open spec fn eq_ignore_ascii_case_spec(s: Seq<char>, t: Seq<char>) -> bool {
    &&& s.len() == t.len()
    &&& forall|i: int| 0 <= i < s.len() ==> #[trigger] ascii_lower(s[i]) == ascii_lower(t[i])
}

/// `c` is an ASCII decimal digit.
pub open spec fn is_digit(c: char) -> bool {
    '0' <= c <= '9'
}

/// The number written by the decimal digits `s`.
pub open spec fn digits_value(s: Seq<char>) -> int
    decreases s.len(),
{
    if s.len() == 0 {
        0
    } else {
        digits_value(s.drop_last()) * 10 + (s.last() as int - '0' as int)
    }
}

/// The device index that `s` writes, as `usize::from_str` reads it: an
/// optional `+`, then one or more decimal digits, the number fitting in a `usize`.
pub open spec fn parse_index_spec(s: Seq<char>) -> Option<usize> {
    parse_index_spec_digits(if s.len() > 0 && s[0] == '+' { s.drop_first() } else { s })
}

/// The number that the decimal digits `digits` write, if they are digits
/// and the number fits in a `usize`.
pub open spec fn parse_index_spec_digits(digits: Seq<char>) -> Option<usize> {
    if digits.len() > 0 && (forall|i: int| 0 <= i < digits.len() ==> is_digit(#[trigger] digits[i]))
        && digits_value(digits) <= usize::MAX {
        Some(digits_value(digits) as usize)
    } else {
        None
    }
}

/// What `parse_device` makes of the text `s`.
pub open spec fn parse_device_spec(s: Seq<char>) -> Result<DeviceSpec, DeviceSpecError> {
    if eq_ignore_ascii_case_spec(s, seq!['a', 'u', 't', 'o']) {
        Ok(DeviceSpec::Auto)
    } else if eq_ignore_ascii_case_spec(s, seq!['c', 'p', 'u']) {
        Ok(DeviceSpec::Cpu)
    } else if s.len() >= 5 && s.take(5) == seq!['c', 'u', 'd', 'a', ':'] {
        match parse_index_spec(s.skip(5)) {
            Some(n) => Ok(DeviceSpec::Cuda(n)),
            None => Err(DeviceSpecError::InvalidCudaIndex),
        }
    } else {
        Err(DeviceSpecError::Unsupported)
    }
}

fn lower_char(c: char) -> (r: char)
    ensures
        r == ascii_lower(c),
{
    if 'A' <= c && c <= 'Z' {
        let u = (c as u32) + 32;
        // upper-case ASCII letters map to lower-case ASCII letters
        assert(0x61 <= u <= 0x7a);
        ((u as u8) as char)
    } else {
        c
    }
}

/// Whether the characters `s` equal `t` ignoring ASCII letter case.
fn chars_eq_ignore_ascii_case(s: &Vec<char>, t: &Vec<char>) -> (r: bool)
    ensures
        r == eq_ignore_ascii_case_spec(s@, t@),
{
    if s.len() != t.len() {
        return false;
    }
    let mut i: usize = 0;
    while i < s.len()
        invariant
            s.len() == t.len(),
            i <= s.len(),
            forall|k: int| 0 <= k < i ==> #[trigger] ascii_lower(s@[k]) == ascii_lower(t@[k]),
        decreases s.len() - i,
    {
        if lower_char(s[i]) != lower_char(t[i]) {
            return false;
        }
        i = i + 1;
    }
    true
}

/// The device index written by `digits[from..]`, if it is one.
fn parse_index(chars: &Vec<char>, from: usize) -> (r: Option<usize>)
    requires
        from <= chars.len(),
    ensures
        r == parse_index_spec(chars@.skip(from as int)),
{
    let ghost s = chars@.skip(from as int);
    let mut i = from;
    if i < chars.len() && chars[i] == '+' {
        i = i + 1;
    }
    let ghost digits = chars@.skip(i as int);
    assert(digits == if s.len() > 0 && s[0] == '+' { s.drop_first() } else { s });
    assert(parse_index_spec(s) == parse_index_spec_digits(digits));
    if i == chars.len() {
        assert(digits.len() == 0);
        return None;
    }
    let start = i;
    let mut value: usize = 0;
    while i < chars.len()
        invariant
            start <= i <= chars.len(),
            digits == chars@.skip(start as int),
            s == chars@.skip(from as int),
            parse_index_spec(s) == parse_index_spec_digits(digits),
            forall|k: int| start <= k < i ==> is_digit(#[trigger] chars@[k]),
            value == digits_value(chars@.subrange(start as int, i as int)),
        decreases chars.len() - i,
    {
        let c = chars[i];
        assert(chars@.subrange(start as int, i + 1).drop_last() =~= chars@.subrange(
            start as int,
            i as int,
        ));
        if !('0' <= c && c <= '9') {
            assert(!is_digit(digits[i - start]));
            assert(parse_index_spec_digits(digits) is None);
            assert(parse_index_spec(s) == parse_index_spec_digits(digits));
            return None;
        }
        let d = (c as u32 - '0' as u32) as usize;
        assert(chars@.subrange(start as int, i + 1).last() == c);
        assert(digits_value(chars@.subrange(start as int, i + 1)) == value * 10 + d);
        match value.checked_mul(10) {
            Some(v10) => match v10.checked_add(d) {
                Some(v) => {
                    value = v;
                },
                None => {
                    proof {
                        lemma_overflow_rejects(chars@, start as int, i as int, digits);
                        assert(parse_index_spec(s) == parse_index_spec_digits(digits));
                    }
                    return None;
                },
            },
            None => {
                proof {
                    lemma_overflow_rejects(chars@, start as int, i as int, digits);
                    assert(parse_index_spec(s) == parse_index_spec_digits(digits));
                }
                return None;
            },
        }
        i = i + 1;
    }
    assert(chars@.subrange(start as int, i as int) =~= digits);
    Some(value)
}

/// When the digits read so far already overflow, the whole text is no index.
proof fn lemma_overflow_rejects(chars: Seq<char>, start: int, i: int, digits: Seq<char>)
    requires
        0 <= start <= i < chars.len(),
        digits == chars.skip(start),
        digits_value(chars.subrange(start, i + 1)) > usize::MAX,
    ensures
        parse_index_spec_digits(digits) is None,
{
    if digits.len() > 0 && (forall|k: int| 0 <= k < digits.len() ==> is_digit(#[trigger] digits[k])) {
        lemma_digits_value_grows(digits, i + 1 - start);
        assert(digits.take(i + 1 - start) =~= chars.subrange(start, i + 1));
    }
}

/// The value of a run of digits is at least that of any of its prefixes.
proof fn lemma_digits_value_grows(digits: Seq<char>, n: int)
    requires
        0 <= n <= digits.len(),
        forall|i: int| 0 <= i < digits.len() ==> is_digit(#[trigger] digits[i]),
    ensures
        digits_value(digits) >= digits_value(digits.take(n)),
        digits_value(digits.take(n)) >= 0,
    decreases digits.len(),
{
    if n == digits.len() {
        assert(digits.take(n) =~= digits);
        lemma_digits_value_nonneg(digits);
    } else {
        let shorter = digits.drop_last();
        assert forall|i: int| 0 <= i < shorter.len() implies is_digit(#[trigger] shorter[i]) by {
            assert(shorter[i] == digits[i]);
        }
        lemma_digits_value_grows(shorter, n);
        assert(shorter.take(n) =~= digits.take(n));
        lemma_digits_value_nonneg(shorter);
    }
}

proof fn lemma_digits_value_nonneg(digits: Seq<char>)
    requires
        forall|i: int| 0 <= i < digits.len() ==> is_digit(#[trigger] digits[i]),
    ensures
        digits_value(digits) >= 0,
    decreases digits.len(),
{
    if digits.len() > 0 {
        let shorter = digits.drop_last();
        assert forall|i: int| 0 <= i < shorter.len() implies is_digit(#[trigger] shorter[i]) by {
            assert(shorter[i] == digits[i]);
        }
        lemma_digits_value_nonneg(shorter);
        assert(is_digit(digits[digits.len() - 1]));
    }
}

/// Reads a device specification: `auto` or `cpu` in any letter case, or
/// `cuda:` followed by a device index.
pub fn parse_device(spec: &str) -> (r: Result<DeviceSpec, DeviceSpecError>)
    ensures
        r == parse_device_spec(spec@),
{
    let chars = chars_of(spec);
    let auto = chars_of("auto");
    let cpu = chars_of("cpu");
    proof {
        reveal_strlit("auto");
        reveal_strlit("cpu");
        assert(auto@ =~= seq!['a', 'u', 't', 'o']);
        assert(cpu@ =~= seq!['c', 'p', 'u']);
    }
    if chars_eq_ignore_ascii_case(&chars, &auto) {
        return Ok(DeviceSpec::Auto);
    }
    if chars_eq_ignore_ascii_case(&chars, &cpu) {
        return Ok(DeviceSpec::Cpu);
    }
    if chars.len() >= 5 && chars[0] == 'c' && chars[1] == 'u' && chars[2] == 'd' && chars[3] == 'a'
        && chars[4] == ':' {
        assert(chars@.take(5) =~= seq!['c', 'u', 'd', 'a', ':']);
        return match parse_index(&chars, 5) {
            Some(n) => Ok(DeviceSpec::Cuda(n)),
            None => Err(DeviceSpecError::InvalidCudaIndex),
        };
    }
    proof {
        if chars@.len() >= 5 && chars@.take(5) == seq!['c', 'u', 'd', 'a', ':'] {
            assert(chars@[0] == chars@.take(5)[0]);
            assert(chars@[1] == chars@.take(5)[1]);
            assert(chars@[2] == chars@.take(5)[2]);
            assert(chars@[3] == chars@.take(5)[3]);
            assert(chars@[4] == chars@.take(5)[4]);
        }
    }
    Err(DeviceSpecError::Unsupported)
}

/// Device specifications read back: `auto` and `cpu` read as themselves,
/// and any device index written in decimal after `cuda:` reads as that
/// CUDA device.
pub proof fn lemma_device_spec_round_trip(n: usize)
    ensures
        parse_device_spec(seq!['c', 'u', 'd', 'a', ':'] + decimal(n as nat)) == Ok::<
            DeviceSpec,
            DeviceSpecError,
        >(DeviceSpec::Cuda(n)),
        parse_device_spec(seq!['a', 'u', 't', 'o']) == Ok::<DeviceSpec, DeviceSpecError>(
            DeviceSpec::Auto,
        ),
        parse_device_spec(seq!['c', 'p', 'u']) == Ok::<DeviceSpec, DeviceSpecError>(DeviceSpec::Cpu),
{
    let prefix = seq!['c', 'u', 'd', 'a', ':'];
    let d = decimal(n as nat);
    lemma_decimal_reads_back(n as nat);
    let s = prefix + d;
    assert(s.take(5) =~= prefix);
    assert(s.skip(5) =~= d);
    assert(is_digit(d[0]));
    assert(!eq_ignore_ascii_case_spec(s, seq!['a', 'u', 't', 'o']));
    assert(!eq_ignore_ascii_case_spec(s, seq!['c', 'p', 'u']));
    assert(parse_index_spec(d) == Some(n));
}

} // verus!
