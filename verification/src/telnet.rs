//! Telnet protocol parser and negotiator (RFC 854, RFC 855).
//!
//! A state machine that consumes the raw byte stream of a BBS, strips the
//! IAC command sequences out of it and produces the negotiation replies.
//! The state survives between chunks, so a command split over two reads is
//! understood as if it had arrived in one.

use vstd::prelude::*;

verus! {

pub const IAC: u8 = 0xFF;
pub const DONT: u8 = 0xFE;
pub const DO: u8 = 0xFD;
pub const WONT: u8 = 0xFC;
pub const WILL: u8 = 0xFB;
pub const SB: u8 = 0xFA;
pub const GA: u8 = 0xF9;
pub const EL: u8 = 0xF8;
pub const EC: u8 = 0xF7;
pub const AYT: u8 = 0xF6;
pub const AO: u8 = 0xF5;
pub const IP: u8 = 0xF4;
pub const BRK: u8 = 0xF3;
pub const DM: u8 = 0xF2;
pub const NOP: u8 = 0xF1;
pub const SE: u8 = 0xF0;
pub const EOR: u8 = 0xEF;

pub const OPT_BINARY: u8 = 0;
pub const OPT_ECHO: u8 = 1;
pub const OPT_SGA: u8 = 3;
pub const OPT_STATUS: u8 = 5;
pub const OPT_TIMING_MARK: u8 = 6;
pub const OPT_TTYPE: u8 = 24;
pub const OPT_NAWS: u8 = 31;
pub const OPT_TSPEED: u8 = 32;
pub const OPT_LFLOW: u8 = 33;
pub const OPT_LINEMODE: u8 = 34;
pub const OPT_ENVIRON: u8 = 36;
pub const OPT_NEW_ENVIRON: u8 = 39;
pub const OPT_CHARSET: u8 = 42;

pub const TTYPE_IS: u8 = 0;
pub const TTYPE_SEND: u8 = 1;
pub const NAWS_REQUEST: u8 = 0xFF;

/// Where the parser stands between two bytes.
#[derive(Debug, Clone, Copy)]
pub enum State {
    Data,
    Iac,
    Will,
    Wont,
    Do,
    Dont,
    Sb,
    SbData(u8),
    SbIac(u8),
}

/// What one call of [`TelnetParser::process`] produced.
pub struct TelnetOutput {
    /// The bytes meant for the terminal, with every command removed.
    pub data: Vec<u8>,
    /// The negotiation replies to send back to the server.
    pub responses: Vec<u8>,
}

/// Stateful Telnet protocol parser.
pub struct TelnetParser {
    state: State,
}

/// The terminal type announced in reply to a TTYPE SEND: `VT100`.
pub open spec fn terminal_type() -> Seq<u8> {
    seq![0x56u8, 0x54u8, 0x31u8, 0x30u8, 0x30u8]
}

/// Reply to `IAC WILL option`: ECHO, SGA and BINARY are accepted, the rest refused.
pub open spec fn will_reply(option: u8) -> Seq<u8> {
    if option == OPT_ECHO || option == OPT_SGA || option == OPT_BINARY {
        seq![IAC, DO, option]
    } else {
        seq![IAC, DONT, option]
    }
}

/// Reply to `IAC DO option`: TTYPE, NAWS and SGA are accepted, the rest refused.
pub open spec fn do_reply(option: u8) -> Seq<u8> {
    if option == OPT_TTYPE || option == OPT_NAWS || option == OPT_SGA {
        seq![IAC, WILL, option]
    } else {
        seq![IAC, WONT, option]
    }
}

/// Reply to a finished subnegotiation: only TTYPE is answered, with `IS VT100`.
pub open spec fn subnegotiation_reply(option: u8) -> Seq<u8> {
    if option == OPT_TTYPE {
        seq![IAC, SB, OPT_TTYPE, TTYPE_IS] + terminal_type() + seq![IAC, SE]
    } else {
        Seq::empty()
    }
}

/// One byte through the machine: the next state, the data byte it yields
/// (if any) and the reply it yields (if any).
pub open spec fn step(s: State, b: u8) -> (State, Seq<u8>, Seq<u8>) {
    match s {
        State::Data => if b == IAC {
            (State::Iac, Seq::empty(), Seq::empty())
        } else {
            (State::Data, seq![b], Seq::empty())
        },
        State::Iac => if b == IAC {
            (State::Data, seq![0xFFu8], Seq::empty())
        } else if b == WILL {
            (State::Will, Seq::empty(), Seq::empty())
        } else if b == WONT {
            (State::Wont, Seq::empty(), Seq::empty())
        } else if b == DO {
            (State::Do, Seq::empty(), Seq::empty())
        } else if b == DONT {
            (State::Dont, Seq::empty(), Seq::empty())
        } else if b == SB {
            (State::Sb, Seq::empty(), Seq::empty())
        } else {
            (State::Data, Seq::empty(), Seq::empty())
        },
        State::Will => (State::Data, Seq::empty(), will_reply(b)),
        State::Wont => (State::Data, Seq::empty(), seq![IAC, DONT, b]),
        State::Do => (State::Data, Seq::empty(), do_reply(b)),
        State::Dont => (State::Data, Seq::empty(), seq![IAC, WONT, b]),
        State::Sb => (State::SbData(b), Seq::empty(), Seq::empty()),
        State::SbData(option) => if b == IAC {
            (State::SbIac(option), Seq::empty(), Seq::empty())
        } else {
            (State::SbData(option), Seq::empty(), Seq::empty())
        },
        State::SbIac(option) => if b == SE {
            (State::Data, Seq::empty(), subnegotiation_reply(option))
        } else {
            (State::SbData(option), Seq::empty(), Seq::empty())
        },
    }
}

/// A whole byte sequence through the machine, from state `s`: the final
/// state, the data bytes and the replies, in order.
pub open spec fn run(s: State, input: Seq<u8>) -> (State, Seq<u8>, Seq<u8>)
    decreases input.len(),
{
    if input.len() == 0 {
        (s, Seq::empty(), Seq::empty())
    } else {
        let prev = run(s, input.drop_last());
        let last = step(prev.0, input.last());
        (last.0, prev.1 + last.1, prev.2 + last.2)
    }
}

/// Chunking law: feeding `a` and then `b` to the parser gives the same final
/// state, the same data and the same replies as feeding `a + b` at once.
pub proof fn lemma_run_concat(s: State, a: Seq<u8>, b: Seq<u8>)
    ensures
        ({
            let first = run(s, a);
            let second = run(first.0, b);
            run(s, a + b) == (second.0, first.1 + second.1, first.2 + second.2)
        }),
    decreases b.len(),
{
    let first = run(s, a);
    if b.len() == 0 {
        assert(a + b =~= a);
        assert(first.1 + Seq::<u8>::empty() =~= first.1);
        assert(first.2 + Seq::<u8>::empty() =~= first.2);
    } else {
        lemma_run_concat(s, a, b.drop_last());
        assert((a + b).drop_last() =~= a + b.drop_last());
        assert((a + b).last() == b.last());
        let second = run(first.0, b);
        let mid = run(first.0, b.drop_last());
        let last = step(mid.0, b.last());
        assert(first.1 + mid.1 + last.1 =~= first.1 + (mid.1 + last.1));
        assert(first.2 + mid.2 + last.2 =~= first.2 + (mid.2 + last.2));
    }
}

/// Plain text passes through untouched: from the data state, input without
/// an IAC byte comes out as data, byte for byte, with no reply.
pub proof fn lemma_plain_data_passthrough(input: Seq<u8>)
    requires
        forall|i: int| 0 <= i < input.len() ==> input[i] != IAC,
    ensures
        run(State::Data, input) == (State::Data, input, Seq::<u8>::empty()),
    decreases input.len(),
{
    if input.len() > 0 {
        lemma_plain_data_passthrough(input.drop_last());
        assert(input.drop_last() + seq![input.last()] =~= input);
        assert(Seq::<u8>::empty() + Seq::<u8>::empty() =~= Seq::<u8>::empty());
    }
}

/// The parser never invents data: the clean output is never longer than
/// the input that produced it.
pub proof fn lemma_data_not_longer(s: State, input: Seq<u8>)
    ensures
        run(s, input).1.len() <= input.len(),
    decreases input.len(),
{
    if input.len() > 0 {
        lemma_data_not_longer(s, input.drop_last());
    }
}

/// Negotiation of the server's options: to `IAC WILL o` the parser answers
/// `IAC DO o` (byte 0xFD) when `o` is BINARY (0), ECHO (1) or SGA (3), and
/// `IAC DONT o` (byte 0xFE) for every other option, producing no data.
pub proof fn lemma_will_negotiation(o: u8)
    ensures
        run(State::Data, seq![0xFFu8, 0xFBu8, o]) == (
            State::Data,
            Seq::<u8>::empty(),
            if o == 0 || o == 1 || o == 3 {
                seq![0xFFu8, 0xFDu8, o]
            } else {
                seq![0xFFu8, 0xFEu8, o]
            },
        ),
{
    let input = seq![0xFFu8, 0xFBu8, o];
    assert(input.drop_last() =~= seq![0xFFu8, 0xFBu8]);
    assert(input.drop_last().drop_last() =~= seq![0xFFu8]);
    assert(input.drop_last().drop_last().drop_last() =~= Seq::<u8>::empty());
    reveal_with_fuel(run, 4);
    assert(Seq::<u8>::empty() + Seq::<u8>::empty() + Seq::<u8>::empty() + Seq::<u8>::empty()
        =~= Seq::<u8>::empty());
}

/// Negotiation of our options: to `IAC DO o` the parser answers `IAC WILL o`
/// (byte 0xFB) when `o` is SGA (3), TTYPE (24) or NAWS (31), and `IAC WONT o`
/// (byte 0xFC) for every other option, producing no data.
pub proof fn lemma_do_negotiation(o: u8)
    ensures
        run(State::Data, seq![0xFFu8, 0xFDu8, o]) == (
            State::Data,
            Seq::<u8>::empty(),
            if o == 3 || o == 24 || o == 31 {
                seq![0xFFu8, 0xFBu8, o]
            } else {
                seq![0xFFu8, 0xFCu8, o]
            },
        ),
{
    let input = seq![0xFFu8, 0xFDu8, o];
    assert(input.drop_last() =~= seq![0xFFu8, 0xFDu8]);
    assert(input.drop_last().drop_last() =~= seq![0xFFu8]);
    assert(input.drop_last().drop_last().drop_last() =~= Seq::<u8>::empty());
    reveal_with_fuel(run, 4);
    assert(Seq::<u8>::empty() + Seq::<u8>::empty() + Seq::<u8>::empty() + Seq::<u8>::empty()
        =~= Seq::<u8>::empty());
}

/// Refusals are echoed: `IAC WONT o` is answered `IAC DONT o` and `IAC DONT o`
/// is answered `IAC WONT o`, for every option.
pub proof fn lemma_refusal_negotiation(o: u8)
    ensures
        run(State::Data, seq![0xFFu8, 0xFCu8, o]) == (
            State::Data,
            Seq::<u8>::empty(),
            seq![0xFFu8, 0xFEu8, o],
        ),
        run(State::Data, seq![0xFFu8, 0xFEu8, o]) == (
            State::Data,
            Seq::<u8>::empty(),
            seq![0xFFu8, 0xFCu8, o],
        ),
{
    let a = seq![0xFFu8, 0xFCu8, o];
    let b = seq![0xFFu8, 0xFEu8, o];
    assert(a.drop_last() =~= seq![0xFFu8, 0xFCu8]);
    assert(b.drop_last() =~= seq![0xFFu8, 0xFEu8]);
    assert(a.drop_last().drop_last() =~= seq![0xFFu8]);
    assert(b.drop_last().drop_last() =~= seq![0xFFu8]);
    assert(seq![0xFFu8].drop_last() =~= Seq::<u8>::empty());
    reveal_with_fuel(run, 4);
    assert(Seq::<u8>::empty() + Seq::<u8>::empty() + Seq::<u8>::empty() + Seq::<u8>::empty()
        =~= Seq::<u8>::empty());
}

/// The terminal type query `IAC SB TTYPE SEND IAC SE` is answered with
/// `IAC SB TTYPE IS V T 1 0 0 IAC SE`, byte for byte.
pub proof fn lemma_ttype_query()
    ensures
        run(State::Data, seq![0xFFu8, 0xFAu8, 24u8, 1u8, 0xFFu8, 0xF0u8]).2 == seq![
            0xFFu8,
            0xFAu8,
            24u8,
            0u8,
            0x56u8,
            0x54u8,
            0x31u8,
            0x30u8,
            0x30u8,
            0xFFu8,
            0xF0u8,
        ],
        run(State::Data, seq![0xFFu8, 0xFAu8, 24u8, 1u8, 0xFFu8, 0xF0u8]).1 == Seq::<u8>::empty(),
{
    let input = seq![0xFFu8, 0xFAu8, 24u8, 1u8, 0xFFu8, 0xF0u8];
    assert(input.drop_last() =~= seq![0xFFu8, 0xFAu8, 24u8, 1u8, 0xFFu8]);
    assert(input.drop_last().drop_last() =~= seq![0xFFu8, 0xFAu8, 24u8, 1u8]);
    assert(input.drop_last().drop_last().drop_last() =~= seq![0xFFu8, 0xFAu8, 24u8]);
    assert(input.drop_last().drop_last().drop_last().drop_last() =~= seq![0xFFu8, 0xFAu8]);
    assert(input.drop_last().drop_last().drop_last().drop_last().drop_last() =~= seq![0xFFu8]);
    assert(seq![0xFFu8].drop_last() =~= Seq::<u8>::empty());
    reveal_with_fuel(run, 7);
    let e = Seq::<u8>::empty();
    assert(e + e + e + e + e + e + e =~= e);
    assert(e + e + e + e + e + e + subnegotiation_reply(24) =~= subnegotiation_reply(24));
    assert(subnegotiation_reply(24) =~= seq![
        0xFFu8,
        0xFAu8,
        24u8,
        0u8,
        0x56u8,
        0x54u8,
        0x31u8,
        0x30u8,
        0x30u8,
        0xFFu8,
        0xF0u8,
    ]);
}

impl View for TelnetParser {
    type V = State;

    closed spec fn view(&self) -> State {
        self.state
    }
}

impl TelnetParser {
    /// A parser that expects plain data.
    pub fn new() -> (p: Self)
        ensures
            p@ == State::Data,
    {
        TelnetParser { state: State::Data }
    }

    /// Process a chunk of raw bytes from the BBS server.
    /// Returns clean data and negotiation responses to send back.
    pub fn process(&mut self, input: &[u8]) -> (out: TelnetOutput)
        ensures
            final(self)@ == run(old(self)@, input@).0,
            out.data@ == run(old(self)@, input@).1,
            out.responses@ == run(old(self)@, input@).2,
    {
        let mut data: Vec<u8> = Vec::new();
        let mut responses: Vec<u8> = Vec::new();
        let ghost start = self.state;
        let mut i: usize = 0;
        while i < input.len()
            invariant
                i <= input@.len(),
                self.state == run(start, input@.take(i as int)).0,
                data@ == run(start, input@.take(i as int)).1,
                responses@ == run(start, input@.take(i as int)).2,
            decreases input@.len() - i,
        {
            let byte = input[i];
            proof {
                assert(input@.take(i + 1).drop_last() =~= input@.take(i as int));
                assert(input@.take(i + 1).last() == byte);
            }
            match self.state {
                State::Data => {
                    if byte == IAC {
                        self.state = State::Iac;
                    } else {
                        data.push(byte);
                    }
                },
                State::Iac => {
                    if byte == IAC {
                        data.push(0xFF);
                        self.state = State::Data;
                    } else if byte == WILL {
                        self.state = State::Will;
                    } else if byte == WONT {
                        self.state = State::Wont;
                    } else if byte == DO {
                        self.state = State::Do;
                    } else if byte == DONT {
                        self.state = State::Dont;
                    } else if byte == SB {
                        self.state = State::Sb;
                    } else {
                        // GA, NOP, DM, BRK, IP, AO, AYT, EC, EL, EOR and
                        // anything unknown end the command.
                        self.state = State::Data;
                    }
                },
                State::Will => {
                    self.handle_will(byte, &mut responses);
                    self.state = State::Data;
                },
                State::Wont => {
                    responses.push(IAC);
                    responses.push(DONT);
                    responses.push(byte);
                    self.state = State::Data;
                },
                State::Do => {
                    self.handle_do(byte, &mut responses);
                    self.state = State::Data;
                },
                State::Dont => {
                    responses.push(IAC);
                    responses.push(WONT);
                    responses.push(byte);
                    self.state = State::Data;
                },
                State::Sb => {
                    self.state = State::SbData(byte);
                },
                State::SbData(option) => {
                    if byte == IAC {
                        self.state = State::SbIac(option);
                    }
                },
                State::SbIac(option) => {
                    if byte == SE {
                        self.handle_subnegotiation(option, &mut responses);
                        self.state = State::Data;
                    } else {
                        self.state = State::SbData(option);
                    }
                },
            }
            i = i + 1;
        }
        proof {
            assert(input@.take(input@.len() as int) =~= input@);
        }
        TelnetOutput { data, responses }
    }

    /// Accept ECHO, SGA, BINARY; refuse everything else.
    fn handle_will(&self, option: u8, responses: &mut Vec<u8>)
        ensures
            final(responses)@ == old(responses)@ + will_reply(option),
    {
        responses.push(IAC);
        if option == OPT_ECHO || option == OPT_SGA || option == OPT_BINARY {
            responses.push(DO);
        } else {
            responses.push(DONT);
        }
        responses.push(option);
    }

    /// Accept TTYPE, NAWS, SGA; refuse everything else.
    fn handle_do(&self, option: u8, responses: &mut Vec<u8>)
        ensures
            final(responses)@ == old(responses)@ + do_reply(option),
    {
        responses.push(IAC);
        if option == OPT_TTYPE || option == OPT_NAWS || option == OPT_SGA {
            responses.push(WILL);
        } else {
            responses.push(WONT);
        }
        responses.push(option);
    }

    /// Handle a finished subnegotiation (the terminal type query).
    fn handle_subnegotiation(&self, option: u8, responses: &mut Vec<u8>)
        ensures
            final(responses)@ == old(responses)@ + subnegotiation_reply(option),
    {
        if option == OPT_TTYPE {
            let ghost before = responses@;
            responses.push(IAC);
            responses.push(SB);
            responses.push(OPT_TTYPE);
            responses.push(TTYPE_IS);
            responses.push(0x56);
            responses.push(0x54);
            responses.push(0x31);
            responses.push(0x30);
            responses.push(0x30);
            responses.push(IAC);
            responses.push(SE);
            assert(responses@ =~= before + subnegotiation_reply(option));
        }
    }

    /// Forget any half-read command: the parser expects plain data again.
    pub fn reset(&mut self)
        ensures
            final(self)@ == State::Data,
    {
        self.state = State::Data;
    }
}

impl Default for TelnetParser {
    fn default() -> (p: Self)
        ensures
            p@ == State::Data,
    {
        Self::new()
    }
}

} // verus!
