//! The LoRa radio's boot-time configuration: the AT commands that set it up and
//! the answer that acknowledges each.
use vstd::prelude::*;

verus! {

/// Largest payload a LoRa frame carries.
pub const LORA_MAX_PAYLOAD: usize = 1200;

/// Seconds to wait for the radio to acknowledge a command.
pub const COMMAND_TIMEOUT_SECS: u64 = 5;

/// Radio parameters set at boot.
#[derive(Clone, Copy, Debug, PartialEq, Eq, Structural)]
pub struct LoraSettings {
    pub spread_factor: u8,
    pub frequency_hz: u32,
    pub bandwidth_khz: u16,
}

/// The decimal digits of `n`, in ASCII.
pub open spec fn decimal(n: nat) -> Seq<u8>
    decreases n,
{
    if n < 10 {
        seq![(48 + n) as u8]
    } else {
        decimal(n / 10) + seq![(48 + n % 10) as u8]
    }
}

/// `AT+`, the parameter's name, `=`, its value in decimal, and CR LF.
pub open spec fn at_command(name: Seq<u8>, value: nat) -> Seq<u8> {
    seq![65u8, 84, 43] + name + seq![61u8] + decimal(value) + seq![13u8, 10]
}

/// `SF`
pub open spec fn sf_name() -> Seq<u8> { seq![83u8, 70] }
/// `FREQ`
pub open spec fn freq_name() -> Seq<u8> { seq![70u8, 82, 69, 81] }
/// `BW`
pub open spec fn bw_name() -> Seq<u8> { seq![66u8, 87] }

fn push_decimal(out: &mut Vec<u8>, n: u32)
    ensures
        final(out)@ == old(out)@ + decimal(n as nat),
    decreases n,
{
    if n >= 10 {
        push_decimal(out, n / 10);
    }
    out.push(48 + (n % 10) as u8);
    assert(out@ =~= old(out)@ + decimal(n as nat));
}

fn push_all(out: &mut Vec<u8>, src: &[u8])
    ensures
        final(out)@ == old(out)@ + src@,
{
    let mut i: usize = 0;
    while i < src.len()
        invariant
            i <= src@.len(),
            out@ == old(out)@ + src@.take(i as int),
        decreases src@.len() - i,
    {
        out.push(src[i]);
        assert(src@.take(i + 1) =~= src@.take(i as int).push(src@[i as int]));
        i = i + 1;
    }
    assert(src@.take(i as int) =~= src@);
}

fn command(name: &[u8], value: u32) -> (r: Vec<u8>)
    ensures
        r@ == at_command(name@, value as nat),
{
    let mut out: Vec<u8> = Vec::new();
    out.push(65u8);
    out.push(84u8);
    out.push(43u8);
    push_all(&mut out, name);
    out.push(61u8);
    push_decimal(&mut out, value);
    out.push(13u8);
    out.push(10u8);
    assert(out@ =~= at_command(name@, value as nat));
    out
}

impl LoraSettings {
    /// The commands that configure the radio, in the order they are sent:
    /// spread factor, frequency, bandwidth.
    pub fn commands(&self) -> (r: Vec<Vec<u8>>)
        ensures
            r@.len() == 3,
            r@[0]@ == at_command(sf_name(), self.spread_factor as nat),
            r@[1]@ == at_command(freq_name(), self.frequency_hz as nat),
            r@[2]@ == at_command(bw_name(), self.bandwidth_khz as nat),
    {
        let sf = vec![83u8, 70];
        let freq = vec![70u8, 82, 69, 81];
        let bw = vec![66u8, 87];
        assert(sf@ =~= sf_name());
        assert(freq@ =~= freq_name());
        assert(bw@ =~= bw_name());
        let mut r: Vec<Vec<u8>> = Vec::new();
        r.push(command(sf.as_slice(), self.spread_factor as u32));
        r.push(command(freq.as_slice(), self.frequency_hz));
        r.push(command(bw.as_slice(), self.bandwidth_khz as u32));
        r
    }
}

/// ASCII whitespace.
pub open spec fn is_space(b: u8) -> bool {
    b == 32 || b == 9 || b == 10 || b == 11 || b == 12 || b == 13
}

/// The line is `OK` with only whitespace around it.
pub open spec fn acknowledges(line: Seq<u8>) -> bool {
    exists|i: int|
        #![trigger line[i]]
        0 <= i && i + 2 <= line.len() && (forall|k: int| 0 <= k < i ==> is_space(#[trigger] line[k])) && line[i] == 79
            && line[i + 1] == 75 && (forall|k: int| i + 2 <= k < line.len() ==> is_space(#[trigger] line[k]))
}

fn space(b: u8) -> (r: bool)
    ensures
        r == is_space(b),
{
    b == 32 || b == 9 || b == 10 || b == 11 || b == 12 || b == 13
}

/// Whether a line the radio answered acknowledges a command.
pub fn is_ok_response(line: &[u8]) -> (r: bool)
    ensures
        r == acknowledges(line@),
{
    let n = line.len();
    let mut i: usize = 0;
    while i < n && space(line[i])
        invariant
            i <= n,
            n == line@.len(),
            forall|k: int| 0 <= k < i ==> is_space(#[trigger] line@[k]),
        decreases n - i,
    {
        i = i + 1;
    }
    let mut j: usize = n;
    while j > i && space(line[j - 1])
        invariant
            i <= j <= n,
            n == line@.len(),
            forall|k: int| j <= k < n ==> is_space(#[trigger] line@[k]),
        decreases j,
    {
        j = j - 1;
    }
    let ok = j >= 2 && j - i == 2 && line[i] == 79 && line[i + 1] == 75;
    proof {
    if ok {
        assert(line@[i as int] == 79);
        assert(acknowledges(line@));
    } else if acknowledges(line@) {
        let w = choose|w: int|
            #![trigger line@[w]]
            0 <= w && w + 2 <= line@.len() && (forall|k: int| 0 <= k < w ==> is_space(#[trigger] line@[k])) && line@[w] == 79
                && line@[w + 1] == 75 && (forall|k: int| w + 2 <= k < line@.len() ==> is_space(#[trigger] line@[k]));
        if i < n {
            assert(!is_space(line@[i as int]));
        }
        assert(w == i as int) by {
            if w < i {
                assert(is_space(line@[w]));
            } else if w > i {
                assert(i < n);
                assert(is_space(line@[i as int]));
            }
        }
        assert(!is_space(line@[w + 1]));
        assert(j == w + 2) by {
            if j > w + 2 {
                assert(!is_space(line@[j - 1]));
                assert(is_space(line@[j - 1]));
            } else if j < w + 2 {
                assert(is_space(line@[w + 1]));
            }
        }
    }
    }
    ok
}

} // verus!
