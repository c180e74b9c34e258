//! The socket's request/reply protocol: commands, the emulator's state machine and the
//! driver's reading of replies.
use vstd::prelude::*;
use crate::decimal::{decimal_text, lemma_parse_decimal_text, lemma_trim_unchanged, format_hundredths, parse_decimal, parse_hundredths, trim, trim_bounds};
use crate::drivers::DriverError;

verus! {

/// A request understood by a socket peer.
#[derive(Clone, Copy, Debug, PartialEq, Eq, Structural)]
pub enum SocketCommand {
    On,
    Off,
    State,
    Power,
}

impl SocketCommand {
    /// The ASCII text of the command on the wire: `ON`, `OFF`, `STATE`, `POWER`.
    pub open spec fn wire(self) -> Seq<u8> {
        match self {
            SocketCommand::On => seq![79u8, 78],
            SocketCommand::Off => seq![79u8, 70, 70],
            SocketCommand::State => seq![83u8, 84, 65, 84, 69],
            SocketCommand::Power => seq![80u8, 79, 87, 69, 82],
        }
    }

    pub fn to_wire(&self) -> (r: Vec<u8>)
        ensures
            r@ == self.wire(),
    {
        let r = match self {
            SocketCommand::On => vec![79u8, 78],
            SocketCommand::Off => vec![79u8, 70, 70],
            SocketCommand::State => vec![83u8, 84, 65, 84, 69],
            SocketCommand::Power => vec![80u8, 79, 87, 69, 82],
        };
        assert(r@ =~= self.wire());
        r
    }
}

/// The command a request holds once surrounding whitespace is dropped, if any.
pub open spec fn command_of(request: Seq<u8>) -> Option<SocketCommand> {
    let t = trim(request);
    if t == SocketCommand::On.wire() {
        Some(SocketCommand::On)
    } else if t == SocketCommand::Off.wire() {
        Some(SocketCommand::Off)
    } else if t == SocketCommand::State.wire() {
        Some(SocketCommand::State)
    } else if t == SocketCommand::Power.wire() {
        Some(SocketCommand::Power)
    } else {
        None
    }
}

/// `OK`: a switch command was applied.
pub open spec fn ok_reply() -> Seq<u8> {
    seq![79u8, 75]
}

/// `ERR`: the request was not understood.
pub open spec fn err_reply() -> Seq<u8> {
    seq![69u8, 82, 82]
}

/// Power drawn by a socket: its wattage while on, nothing while off.
pub open spec fn power_drawn(powered: bool, wattage: int) -> int {
    if powered {
        wattage
    } else {
        0
    }
}

fn span_equals(s: &[u8], start: usize, end: usize, word: &Vec<u8>) -> (r: bool)
    requires
        start <= end <= s@.len(),
    ensures
        r == (s@.subrange(start as int, end as int) == word@),
{
    if end - start != word.len() {
        return false;
    }
    let mut k: usize = 0;
    while k < word.len()
        invariant
            start <= end <= s@.len(),
            end - start == word@.len(),
            0 <= k <= word@.len(),
            forall|j: int| 0 <= j < k ==> s@[start + j] == word@[j],
        decreases word@.len() - k,
    {
        if s[start + k] != word[k] {
            assert(s@.subrange(start as int, end as int)[k as int] != word@[k as int]);
            return false;
        }
        k = k + 1;
    }
    assert(s@.subrange(start as int, end as int) =~= word@);
    true
}

/// Decodes a request into the command it holds.
pub fn decode_command(request: &[u8]) -> (r: Option<SocketCommand>)
    ensures
        r == command_of(request@),
{
    let (start, end) = trim_bounds(request);
    if span_equals(request, start, end, &SocketCommand::On.to_wire()) {
        Some(SocketCommand::On)
    } else if span_equals(request, start, end, &SocketCommand::Off.to_wire()) {
        Some(SocketCommand::Off)
    } else if span_equals(request, start, end, &SocketCommand::State.to_wire()) {
        Some(SocketCommand::State)
    } else if span_equals(request, start, end, &SocketCommand::Power.to_wire()) {
        Some(SocketCommand::Power)
    } else {
        None
    }
}

/// The state a socket peer keeps: whether it is powered and the wattage it draws when on.
#[derive(Clone, Copy, Debug, PartialEq, Eq, Structural)]
pub struct SocketState {
    pub powered: bool,
    /// In hundredths of a watt.
    pub wattage: i64,
}

impl SocketState {
    /// A peer that starts switched off.
    pub fn new(wattage: i64) -> (r: SocketState)
        ensures
            r == (SocketState { powered: false, wattage }),
    {
        SocketState { powered: false, wattage }
    }

    /// The state after serving a request that holds `cmd`.
    pub open spec fn after(self, cmd: Option<SocketCommand>) -> SocketState {
        match cmd {
            Some(SocketCommand::On) => SocketState { powered: true, ..self },
            Some(SocketCommand::Off) => SocketState { powered: false, ..self },
            _ => self,
        }
    }

    /// The reply to a request that holds `cmd`.
    pub open spec fn reply_to(self, cmd: Option<SocketCommand>) -> Seq<u8> {
        match cmd {
            Some(SocketCommand::On) | Some(SocketCommand::Off) => ok_reply(),
            Some(SocketCommand::State) => if self.powered {
                SocketCommand::On.wire()
            } else {
                SocketCommand::Off.wire()
            },
            Some(SocketCommand::Power) => decimal_text(power_drawn(self.powered, self.wattage as int)),
            None => err_reply(),
        }
    }

    /// Serves one request: applies it and returns the one reply to write back.
    pub fn handle_request(&mut self, request: &[u8]) -> (reply: Vec<u8>)
        ensures
            *final(self) == old(self).after(command_of(request@)),
            reply@ == old(self).reply_to(command_of(request@)),
            command_of(request@) is None ==> reply@ == err_reply() && *final(self) == *old(self),
    {
        match decode_command(request) {
            Some(SocketCommand::On) => {
                self.powered = true;
                let r = vec![79u8, 75];
                assert(r@ =~= ok_reply());
                r
            },
            Some(SocketCommand::Off) => {
                self.powered = false;
                let r = vec![79u8, 75];
                assert(r@ =~= ok_reply());
                r
            },
            Some(SocketCommand::State) => {
                if self.powered {
                    SocketCommand::On.to_wire()
                } else {
                    SocketCommand::Off.to_wire()
                }
            },
            Some(SocketCommand::Power) => {
                let p = if self.powered {
                    self.wattage
                } else {
                    0
                };
                format_hundredths(p)
            },
            None => {
                let r = vec![69u8, 82, 82];
                assert(r@ =~= err_reply());
                r
            },
        }
    }
}

/// Whether a `STATE` reply says the socket is on.
pub open spec fn reply_says_on(reply: Seq<u8>) -> bool {
    trim(reply) == SocketCommand::On.wire()
}

/// Reads a `STATE` reply: on exactly when it is `ON`, whitespace aside.
pub fn read_state_reply(reply: &[u8]) -> (r: bool)
    ensures
        r == reply_says_on(reply@),
{
    let (start, end) = trim_bounds(reply);
    span_equals(reply, start, end, &SocketCommand::On.to_wire())
}

/// Reads a `POWER` reply as hundredths of a watt; a reply that is no decimal number is a
/// protocol error.
pub fn read_power_reply(reply: &[u8]) -> (r: Result<i64, DriverError>)
    ensures
        match parse_hundredths(reply@) {
            Some(v) => r == Ok::<i64, DriverError>(v as i64),
            None => r == Err::<i64, DriverError>(DriverError::Protocol),
        },
{
    match parse_decimal(reply) {
        Some(v) => Ok(v),
        None => Err(DriverError::Protocol),
    }
}

/// The peer's state after serving, in turn, each of `requests`.
pub open spec fn serve_all(st: SocketState, requests: Seq<Seq<u8>>) -> SocketState
    decreases requests.len(),
{
    if requests.len() == 0 {
        st
    } else {
        serve_all(st, requests.drop_last()).after(command_of(requests.last()))
    }
}

/// Whether the last `ON` or `OFF` among `requests` was `ON`, if there is one.
pub open spec fn last_switch(requests: Seq<Seq<u8>>) -> Option<bool>
    decreases requests.len(),
{
    if requests.len() == 0 {
        None
    } else {
        match command_of(requests.last()) {
            Some(SocketCommand::On) => Some(true),
            Some(SocketCommand::Off) => Some(false),
            _ => last_switch(requests.drop_last()),
        }
    }
}

/// A request that holds a command's wire text is read back as that command, so a sequence of
/// driver operations reaches the peer as the same sequence of commands.
pub proof fn lemma_command_of_wire(c: SocketCommand)
    ensures
        command_of(c.wire()) == Some(c),
{
    lemma_trim_unchanged(c.wire());
    assert(SocketCommand::On.wire() != SocketCommand::Off.wire());
    assert(SocketCommand::State.wire()[0] != SocketCommand::Power.wire()[0]);
    assert(SocketCommand::State.wire() != SocketCommand::Power.wire());
}

/// However the peer's requests are ordered (the lock serves them one at a time), its wattage
/// never changes; a driver that then asks `STATE` reads the last switch served (or the state the
/// peer began in), and one that asks `POWER` reads the wattage exactly when that switch was
/// `ON`, zero otherwise.
pub proof fn lemma_served_last_switch_wins(st: SocketState, requests: Seq<Seq<u8>>)
    ensures
        serve_all(st, requests).wattage == st.wattage,
        serve_all(st, requests).powered == match last_switch(requests) {
            Some(b) => b,
            None => st.powered,
        },
        reply_says_on(serve_all(st, requests).reply_to(command_of(SocketCommand::State.wire())))
            == serve_all(st, requests).powered,
        parse_hundredths(serve_all(st, requests).reply_to(command_of(SocketCommand::Power.wire())))
            == Some(power_drawn(serve_all(st, requests).powered, st.wattage as int)),
    decreases requests.len(),
{
    if requests.len() > 0 {
        lemma_served_last_switch_wins(st, requests.drop_last());
    }
    let fin = serve_all(st, requests);
    lemma_command_of_wire(SocketCommand::State);
    lemma_command_of_wire(SocketCommand::Power);
    lemma_trim_unchanged(SocketCommand::On.wire());
    lemma_trim_unchanged(SocketCommand::Off.wire());
    assert(SocketCommand::On.wire() != SocketCommand::Off.wire());
    let p: i64 = if fin.powered { fin.wattage } else { 0 };
    lemma_parse_decimal_text(p);
}

/// The requests a driver sends for a series of switches (`true` for `ON`).
pub open spec fn switch_requests(switches: Seq<bool>) -> Seq<Seq<u8>> {
    switches.map_values(|b: bool| if b { SocketCommand::On.wire() } else { SocketCommand::Off.wire() })
}

/// After a driver switches a peer in turn as `switches` says, the peer's `STATE` reply reads as
/// the last switch and its `POWER` reply as the wattage when that switch was on, zero when off;
/// `TcpSocketDriver::is_on_from` and `current_power_from` return exactly these readings.
pub proof fn lemma_tcp_last_switch_wins(st: SocketState, switches: Seq<bool>)
    requires
        switches.len() > 0,
    ensures
        reply_says_on(serve_all(st, switch_requests(switches)).reply_to(Some(SocketCommand::State)))
            == switches.last(),
        parse_hundredths(serve_all(st, switch_requests(switches)).reply_to(Some(SocketCommand::Power)))
            == Some(if switches.last() { st.wattage as int } else { 0 }),
{
    let reqs = switch_requests(switches);
    lemma_command_of_wire(SocketCommand::On);
    lemma_command_of_wire(SocketCommand::Off);
    lemma_command_of_wire(SocketCommand::State);
    lemma_command_of_wire(SocketCommand::Power);
    assert(reqs.last() == if switches.last() { SocketCommand::On.wire() } else { SocketCommand::Off.wire() });
    assert(last_switch(reqs) == Some(switches.last()));
    lemma_served_last_switch_wins(st, reqs);
}

} // verus!
