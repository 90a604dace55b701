use vstd::prelude::*;
use vstd::utf8::encode_utf8;
use crate::cmd::{Parse, ParseError};

verus! {

broadcast use vstd::seq::group_seq_axioms;

/// A debug command with one subcommand word.
#[derive(Debug)]
pub struct Debug {
    subcommand: String,
}

/// What a debug subcommand asks the server to do.
#[derive(Clone, Copy, Debug, PartialEq, Eq, Structural)]
pub enum DebugAction {
    StartProfiler,
    StopProfiler,
    Unknown,
}

pub open spec fn spec_lower_byte(b: u8) -> u8 {
    if 65 <= b <= 90 {
        (b + 32) as u8
    } else {
        b
    }
}

pub open spec fn spec_ascii_lower(s: Seq<u8>) -> Seq<u8> {
    s.map_values(|b: u8| spec_lower_byte(b))
}

/// The profiler-start subcommand word, byte for byte.
pub open spec fn spec_is_start_word(s: Seq<u8>) -> bool {
    &&& s.len() == 14
    &&& s[0] == 0x70
    &&& s[1] == 0x72
    &&& s[2] == 0x6f
    &&& s[3] == 0x66
    &&& s[4] == 0x69
    &&& s[5] == 0x6c
    &&& s[6] == 0x65
    &&& s[7] == 0x72
    &&& s[8] == 0x5f
    &&& s[9] == 0x73
    &&& s[10] == 0x74
    &&& s[11] == 0x61
    &&& s[12] == 0x72
    &&& s[13] == 0x74
}

/// The profiler-stop subcommand word, byte for byte.
pub open spec fn spec_is_stop_word(s: Seq<u8>) -> bool {
    &&& s.len() == 13
    &&& s[0] == 0x70
    &&& s[1] == 0x72
    &&& s[2] == 0x6f
    &&& s[3] == 0x66
    &&& s[4] == 0x69
    &&& s[5] == 0x6c
    &&& s[6] == 0x65
    &&& s[7] == 0x72
    &&& s[8] == 0x5f
    &&& s[9] == 0x73
    &&& s[10] == 0x74
    &&& s[11] == 0x6f
    &&& s[12] == 0x70
}

fn lower_byte(b: u8) -> (r: u8)
    ensures
        r == spec_lower_byte(b),
{
    if b >= 65 && b <= 90 {
        b + 32
    } else {
        b
    }
}

impl Debug {
    pub closed spec fn spec_subcommand(&self) -> Seq<char> {
        self.subcommand@
    }

    pub fn new(subcommand: &str) -> (r: Debug)
        ensures
            r.spec_subcommand() == subcommand@,
    {
        Debug { subcommand: subcommand.to_owned() }
    }

    /// Parses the subcommand word from the framed arguments.
    pub fn parse_frames(parse: &mut Parse) -> (r: Result<Debug, ParseError>)
        ensures
            final(parse).spec_args() == old(parse).spec_args(),
            old(parse).spec_pos() < old(parse).spec_args().len() ==> {
                &&& r matches Ok(d) && d.spec_subcommand() == old(parse).spec_args()[old(
                    parse,
                ).spec_pos()]
                &&& final(parse).spec_pos() == old(parse).spec_pos() + 1
            },
            old(parse).spec_pos() >= old(parse).spec_args().len() ==> {
                &&& r matches Err(e) && e == ParseError::EndOfStream
                &&& final(parse).spec_pos() == old(parse).spec_pos()
            },
    {
        match parse.next_string() {
            Ok(s) => Ok(Debug { subcommand: s }),
            Err(e) => Err(e),
        }
    }

    /// Decides the subcommand, ASCII case-insensitively: the profiler
    /// words act, anything else is unsupported.
    pub fn action(&self) -> (r: DebugAction)
        ensures
            r == DebugAction::StartProfiler <==> spec_is_start_word(
                spec_ascii_lower(encode_utf8(self.spec_subcommand())),
            ),
            r == DebugAction::StopProfiler <==> spec_is_stop_word(
                spec_ascii_lower(encode_utf8(self.spec_subcommand())),
            ),
    {
        let b = self.subcommand.as_str().as_bytes();
        if b.len() == 14 && lower_byte(b[0]) == 0x70 && lower_byte(b[1]) == 0x72 && lower_byte(
            b[2],
        ) == 0x6f && lower_byte(b[3]) == 0x66 && lower_byte(b[4]) == 0x69 && lower_byte(b[5])
            == 0x6c && lower_byte(b[6]) == 0x65 && lower_byte(b[7]) == 0x72 && lower_byte(b[8])
            == 0x5f && lower_byte(b[9]) == 0x73 && lower_byte(b[10]) == 0x74 && lower_byte(b[11])
            == 0x61 && lower_byte(b[12]) == 0x72 && lower_byte(b[13]) == 0x74 {
            return DebugAction::StartProfiler;
        }
        if b.len() == 13 && lower_byte(b[0]) == 0x70 && lower_byte(b[1]) == 0x72 && lower_byte(
            b[2],
        ) == 0x6f && lower_byte(b[3]) == 0x66 && lower_byte(b[4]) == 0x69 && lower_byte(b[5])
            == 0x6c && lower_byte(b[6]) == 0x65 && lower_byte(b[7]) == 0x72 && lower_byte(b[8])
            == 0x5f && lower_byte(b[9]) == 0x73 && lower_byte(b[10]) == 0x74 && lower_byte(b[11])
            == 0x6f && lower_byte(b[12]) == 0x70 {
            return DebugAction::StopProfiler;
        }
        DebugAction::Unknown
    }
}

} // verus!
