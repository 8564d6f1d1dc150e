//! Scan scope and protocol selection.

use crate::scanners::text::{
    chars_of, decimal_text, is_digit, lemma_decimal_text_reads_back, port_number, read_port,
    unsigned_part, write_decimal,
};
use vstd::prelude::*;

pub mod engine;
pub mod partition;
pub mod protocols;
pub mod strategies;
pub mod text;
pub mod worker;

pub use protocols::TcpScanner;
pub use protocols::UdpScanner;

verus! {

/// The address of a host, as the number its bytes spell in network order.
#[derive(Debug, Clone, Copy, PartialEq, Eq, Structural)]
pub enum HostAddr {
    /// An IPv4 address.
    V4(u32),
    /// An IPv6 address.
    V6(u128),
}

/// A host and one of its ports.
#[derive(Debug, Clone, Copy, PartialEq, Eq, Structural)]
pub struct Endpoint {
    /// The host's address.
    pub host: HostAddr,
    /// The port on that host.
    pub port: u16,
}

/// An inclusive interval of ports to scan.
#[derive(Debug, Clone, Copy, PartialEq, Eq, Structural)]
pub struct PortRange {
    /// The first port of the range.
    pub start: u16,
    /// The last port of the range.
    pub end: u16,
}

impl PortRange {
    /// A range is well formed when it holds at least one port.
    pub open spec fn wf(self) -> bool {
        self.start <= self.end
    }

    /// How many ports the range holds; none when the bounds are inverted.
    pub open spec fn len_spec(self) -> int {
        if self.start <= self.end {
            self.end - self.start + 1
        } else {
            0
        }
    }

    /// Whether `port` lies within the bounds.
    pub open spec fn has(self, port: u16) -> bool {
        self.start <= port <= self.end
    }

    /// The ports of the range in ascending order.
    pub open spec fn ports_spec(self) -> Seq<u16> {
        Seq::new(self.len_spec() as nat, |i: int| (self.start + i) as u16)
    }

    /// Whether the range holds at least one port.
    pub fn is_well_formed(&self) -> (ok: bool)
        ensures
            ok == self.wf(),
    {
        self.start <= self.end
    }

    /// How many ports the range holds.
    pub fn len(&self) -> (count: u32)
        ensures
            count == self.len_spec(),
    {
        if self.start <= self.end {
            let span: u16 = self.end - self.start;
            span as u32 + 1
        } else {
            0
        }
    }

    /// Whether `port` lies within the bounds.
    pub fn contains(&self, port: u16) -> (found: bool)
        ensures
            found == self.has(port),
    {
        self.start <= port && port <= self.end
    }

    /// Every port of the range, in ascending order.
    pub fn ports(&self) -> (ports: Vec<u16>)
        ensures
            ports@ == self.ports_spec(),
    {
        let mut ports: Vec<u16> = Vec::new();
        let count: u32 = self.len();
        let mut done: u32 = 0;
        while done < count
            invariant
                count == self.len_spec(),
                done <= count,
                ports@ == Seq::new(done as nat, |i: int| (self.start + i) as u16),
            decreases count - done,
        {
            let port: u32 = self.start as u32 + done;
            ports.push(port as u16);
            done = done + 1;
            assert(ports@ =~= Seq::new(done as nat, |i: int| (self.start + i) as u16));
        }
        ports
    }
}

/// Why a text spells no port range.
#[derive(Debug, Clone, Copy, PartialEq, Eq, Structural)]
pub enum PortRangeError {
    /// The text does not hold exactly one dash.
    Malformed,
    /// What stands before the dash is no port number.
    InvalidStart,
    /// What stands after the dash is no port number.
    InvalidEnd,
    /// The first port is greater than the last.
    Inverted,
}

impl PortRangeError {
    /// The message that tells a user what is wrong.
    pub open spec fn message_spec(self) -> Seq<char> {
        match self {
            PortRangeError::Malformed => "Invalid port range"@,
            PortRangeError::InvalidStart => "Invalid start port number"@,
            PortRangeError::InvalidEnd => "Invalid end port number"@,
            PortRangeError::Inverted => "Start port must be less than or equal to end port"@,
        }
    }

    /// The message that tells a user what is wrong.
    pub fn message(&self) -> (text: &'static str)
        ensures
            text@ == self.message_spec(),
    {
        match self {
            PortRangeError::Malformed => "Invalid port range",
            PortRangeError::InvalidStart => "Invalid start port number",
            PortRangeError::InvalidEnd => "Invalid end port number",
            PortRangeError::Inverted => "Start port must be less than or equal to end port",
        }
    }
}

/// Whether the one dash of `text` stands at `at`.
pub open spec fn is_only_dash(text: Seq<char>, at: int) -> bool {
    &&& 0 <= at < text.len()
    &&& text[at] == '-'
    &&& forall|k: int| 0 <= k < text.len() && k != at ==> text[k] != '-'
}

/// Where the one dash of `text` stands.
pub open spec fn dash_at(text: Seq<char>) -> int {
    choose|at: int| is_only_dash(text, at)
}

/// The range that `text` spells, or why it spells none.
///
/// A range is written as its first port, a dash and its last port. A text
/// without dash or with more than one is malformed. Otherwise the part before
/// the dash must spell a port number, then the part after it, and the first
/// may not be greater than the last.
pub open spec fn range_from_text(text: Seq<char>) -> Result<PortRange, PortRangeError> {
    if !exists|at: int| is_only_dash(text, at) {
        Err(PortRangeError::Malformed)
    } else {
        let at = dash_at(text);
        match port_number(text.subrange(0, at)) {
            None => Err(PortRangeError::InvalidStart),
            Some(start) => match port_number(text.subrange(at + 1, text.len() as int)) {
                None => Err(PortRangeError::InvalidEnd),
                Some(end) => if start > end {
                    Err(PortRangeError::Inverted)
                } else {
                    Ok(PortRange { start, end })
                },
            },
        }
    }
}

/// How a range is written: its first port, a dash, its last port.
pub open spec fn range_text(range: PortRange) -> Seq<char> {
    decimal_text(range.start as nat) + seq!['-'] + decimal_text(range.end as nat)
}

/// Reading back what was written for a range gives that range.
pub proof fn lemma_written_range_reads_back(range: PortRange)
    requires
        range.wf(),
    ensures
        range_from_text(range_text(range)) == Ok::<PortRange, PortRangeError>(range),
{
    let first = decimal_text(range.start as nat);
    let second = decimal_text(range.end as nat);
    let text = range_text(range);
    let at = first.len() as int;
    lemma_decimal_text_reads_back(range.start as nat);
    lemma_decimal_text_reads_back(range.end as nat);
    assert(text[at] == '-');
    assert forall|k: int| 0 <= k < text.len() && k != at implies text[k] != '-' by {
        if k < at {
            assert(text[k] == first[k]);
            assert(is_digit(first[k]));
        } else {
            assert(text[k] == second[k - at - 1]);
            assert(is_digit(second[k - at - 1]));
        }
    }
    assert(is_only_dash(text, at));
    let found = dash_at(text);
    assert(found == at) by {
        if found != at {
            assert(text[found] != '-');
        }
    }
    assert(text.subrange(0, at) =~= first);
    assert(text.subrange(at + 1, text.len() as int) =~= second);
    assert(is_digit(first[0]));
    assert(is_digit(second[0]));
    assert(unsigned_part(first) == first);
    assert(unsigned_part(second) == second);
}

impl PortRange {
    /// Reads a range written as its first port, a dash and its last port.
    pub fn parse(text: &str) -> (outcome: Result<PortRange, PortRangeError>)
        ensures
            outcome == range_from_text(text@),
    {
        let chars = chars_of(text);
        let mut dashes: u8 = 0;
        let mut at: usize = 0;
        let mut i: usize = 0;
        let ghost mut other: int = 0;
        while i < chars.len()
            invariant
                i <= chars.len(),
                dashes <= 2,
                dashes == 0 ==> forall|k: int| 0 <= k < i ==> chars[k] != '-',
                dashes >= 1 ==> at < i && chars[at as int] == '-',
                dashes == 1 ==> forall|k: int| 0 <= k < i && k != at ==> chars[k] != '-',
                dashes == 2 ==> 0 <= other < i && other != at && chars[other] == '-',
            decreases chars.len() - i,
        {
            if chars[i] == '-' {
                if dashes == 0 {
                    at = i;
                    dashes = 1;
                } else {
                    proof {
                        other = i as int;
                    }
                    dashes = 2;
                }
            }
            i = i + 1;
        }
        if dashes != 1 {
            proof {
                if exists|p: int| is_only_dash(chars@, p) {
                    let p = choose|p: int| is_only_dash(chars@, p);
                    if dashes == 2 {
                        if p == at {
                            assert(chars[other] != '-');
                        } else {
                            assert(chars[at as int] != '-');
                        }
                    }
                }
            }
            return Err(PortRangeError::Malformed);
        }
        proof {
            assert(is_only_dash(chars@, at as int));
            let found = dash_at(chars@);
            if found != at {
                assert(chars[found] != '-');
            }
        }
        let start: u16 = match read_port(&chars, 0, at) {
            Some(port) => port,
            None => {
                return Err(PortRangeError::InvalidStart);
            },
        };
        let end: u16 = match read_port(&chars, at + 1, chars.len()) {
            Some(port) => port,
            None => {
                return Err(PortRangeError::InvalidEnd);
            },
        };
        if start > end {
            return Err(PortRangeError::Inverted);
        }
        Ok(PortRange { start, end })
    }

    /// Writes the range as its first port, a dash and its last port.
    pub fn render(&self) -> (text: String)
        ensures
            text@ == range_text(*self),
    {
        let mut text = String::new();
        write_decimal(&mut text, self.start);
        proof {
            reveal_strlit("-");
        }
        let ghost first = text@;
        text.append("-");
        assert(text@ =~= first + seq!['-']);
        write_decimal(&mut text, self.end);
        assert(text@ =~= range_text(*self));
        text
    }
}

impl std::str::FromStr for PortRange {
    type Err = String;

    /// Reads a range as `PortRange::parse` does, and gives the error's
    /// message where the text spells none.
    fn from_str(text: &str) -> (outcome: Result<Self, Self::Err>)
        ensures
            match range_from_text(text@) {
                Ok(range) => outcome == Ok::<PortRange, String>(range),
                Err(error) => outcome is Err && outcome->Err_0@ == error.message_spec(),
            },
    {
        match PortRange::parse(text) {
            Ok(range) => Ok(range),
            Err(error) => Err(error.message().to_owned()),
        }
    }
}

impl Default for PortRange {
    /// The full range of usable ports, 1 to 65535.
    fn default() -> (range: Self)
        ensures
            range == (PortRange { start: 1, end: 65535 }),
    {
        PortRange { start: 1, end: 65535 }
    }
}

/// The protocol a scan probes with.
#[derive(Debug, Clone, Copy, PartialEq, Eq, Structural)]
pub enum ScanProtocol {
    /// Transmission Control Protocol.
    Tcp,
    /// User Datagram Protocol.
    Udp,
}

impl ScanProtocol {
    /// The lower-case name under which the protocol is shown.
    pub open spec fn name_spec(self) -> Seq<char> {
        match self {
            ScanProtocol::Tcp => "tcp"@,
            ScanProtocol::Udp => "udp"@,
        }
    }

    /// The lower-case name under which the protocol is shown.
    pub fn name(&self) -> (text: &'static str)
        ensures
            text@ == self.name_spec(),
    {
        match self {
            ScanProtocol::Tcp => "tcp",
            ScanProtocol::Udp => "udp",
        }
    }
}

} // verus!
