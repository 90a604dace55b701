use vstd::prelude::*;
use vstd::utf8::encode_utf8;
use crate::cmd::{parse_i64, spec_is_i64, spec_int_value, Parse, ParseError};

verus! {

broadcast use vstd::seq::group_seq_axioms;

/// A list-trim command: retain the client range [start, end] of the list
/// at `key` and delete every other member.
#[derive(Debug)]
pub struct Ltrim {
    key: String,
    start: i64,
    end: i64,
    valid: bool,
}

/// Where a trim request goes once the deployment mode is known.
pub enum LtrimDisposition {
    /// Parameters were marked invalid upstream; an invalid-arguments
    /// response is produced without touching the backend.
    InvalidArguments,
    /// The raw (non-transactional) path refuses a trim: deleting members
    /// and updating bounds cannot be done atomically there, and a partial
    /// trim must never become visible.
    Unsupported,
    /// Execute with these parameters: inside the caller's transaction when
    /// a handle is supplied, else as one new optimistic transaction. A
    /// supplied transaction's lifecycle stays with the caller — the command
    /// context must neither begin, commit nor abort it, and must acquire no
    /// pool session for it.
    Transactional { key: String, start: i64, end: i64, txn: Option<u64> },
}

impl Ltrim {
    pub closed spec fn spec_key(&self) -> Seq<char> {
        self.key@
    }

    pub closed spec fn spec_start(&self) -> i64 {
        self.start
    }

    pub closed spec fn spec_end(&self) -> i64 {
        self.end
    }

    pub closed spec fn spec_valid(&self) -> bool {
        self.valid
    }

    pub fn new(key: &str, start: i64, end: i64) -> (r: Ltrim)
        ensures
            r.spec_key() == key@,
            r.spec_start() == start,
            r.spec_end() == end,
            r.spec_valid(),
    {
        Ltrim { key: key.to_owned(), start, end, valid: true }
    }

    pub fn new_invalid() -> (r: Ltrim)
        ensures
            !r.spec_valid(),
            r.spec_key() == Seq::<char>::empty(),
            r.spec_start() == 0,
            r.spec_end() == 0,
    {
        Ltrim { key: String::new(), start: 0, end: 0, valid: false }
    }

    pub fn key(&self) -> (r: &str)
        ensures
            r@ == self.spec_key(),
    {
        self.key.as_str()
    }

    /// Parses key, start and end from the framed arguments. An argument
    /// that is missing or does not read as an integer is a protocol error
    /// here, unlike the lenient inline form.
    pub fn parse_frames(parse: &mut Parse) -> (r: Result<Ltrim, ParseError>)
        ensures
            final(parse).spec_args() == old(parse).spec_args(),
            ({
                let args = old(parse).spec_args();
                let p = old(parse).spec_pos();
                &&& (r is Ok <==> p + 3 <= args.len() && spec_is_i64(encode_utf8(args[p + 1]))
                    && spec_is_i64(encode_utf8(args[p + 2])))
                &&& (r matches Ok(lt) ==> {
                    &&& lt.spec_valid()
                    &&& lt.spec_key() == args[p]
                    &&& lt.spec_start() as int == spec_int_value(encode_utf8(args[p + 1]))
                    &&& lt.spec_end() as int == spec_int_value(encode_utf8(args[p + 2]))
                    &&& final(parse).spec_pos() == p + 3
                })
                &&& (r == Err::<Ltrim, ParseError>(ParseError::EndOfStream) <==> args.len() <= p
                    || args.len() == p + 1 || (args.len() == p + 2 && spec_is_i64(
                    encode_utf8(args[p + 1]),
                )))
                &&& (r == Err::<Ltrim, ParseError>(ParseError::Invalid) <==> (args.len() >= p + 2
                    && !spec_is_i64(encode_utf8(args[p + 1]))) || (args.len() >= p + 3
                    && spec_is_i64(encode_utf8(args[p + 1])) && !spec_is_i64(
                    encode_utf8(args[p + 2]),
                )))
            }),
    {
        let key = match parse.next_string() {
            Ok(s) => s,
            Err(e) => {
                return Err(e);
            },
        };
        let start = match parse.next_int() {
            Ok(v) => v,
            Err(e) => {
                return Err(e);
            },
        };
        let end = match parse.next_int() {
            Ok(v) => v,
            Err(e) => {
                return Err(e);
            },
        };
        Ok(Ltrim { key, start, end, valid: true })
    }

    /// Parses the inline argument form. Never fails: a wrong argument count
    /// or a malformed number yields the invalid command value, whose
    /// execution produces the invalid-arguments response.
    pub fn parse_argv(argv: &Vec<String>) -> (r: Result<Ltrim, ParseError>)
        ensures
            r is Ok,
            r matches Ok(lt) ==> {
                let a = argv.deep_view();
                if a.len() != 3 {
                    &&& !lt.spec_valid()
                    &&& lt.spec_key() == Seq::<char>::empty()
                    &&& lt.spec_start() == 0
                    &&& lt.spec_end() == 0
                } else if !spec_is_i64(encode_utf8(a[1])) || !spec_is_i64(encode_utf8(a[2])) {
                    &&& !lt.spec_valid()
                    &&& lt.spec_key() == Seq::<char>::empty()
                    &&& lt.spec_start() == 0
                    &&& lt.spec_end() == 0
                } else {
                    &&& lt.spec_valid()
                    &&& lt.spec_key() == a[0]
                    &&& lt.spec_start() as int == spec_int_value(encode_utf8(a[1]))
                    &&& lt.spec_end() as int == spec_int_value(encode_utf8(a[2]))
                }
            },
    {
        if argv.len() != 3 {
            return Ok(Ltrim::new_invalid());
        }
        let start = match parse_i64(argv[1].as_str().as_bytes()) {
            Some(v) => v,
            None => {
                return Ok(Ltrim::new_invalid());
            },
        };
        let end = match parse_i64(argv[2].as_str().as_bytes()) {
            Some(v) => v,
            None => {
                return Ok(Ltrim::new_invalid());
            },
        };
        Ok(Ltrim::new(argv[0].as_str(), start, end))
    }

    /// Routes the trim: the invalid command value produces the
    /// invalid-arguments response; in the transactional deployment the
    /// command runs inside the caller-supplied transaction when one is
    /// given, else as one new optimistic transaction; the raw path refuses
    /// it.
    pub fn ltrim(&self, txn: Option<u64>, use_txn_api: bool) -> (r: LtrimDisposition)
        ensures
            !self.spec_valid() ==> r == LtrimDisposition::InvalidArguments,
            self.spec_valid() && !use_txn_api ==> r == LtrimDisposition::Unsupported,
            self.spec_valid() && use_txn_api ==> (r matches LtrimDisposition::Transactional {
                key,
                start,
                end,
                txn: t,
            } && key@ == self.spec_key() && start == self.spec_start() && end == self.spec_end()
                && t == txn),
    {
        if !self.valid {
            return LtrimDisposition::InvalidArguments;
        }
        if use_txn_api {
            LtrimDisposition::Transactional {
                key: self.key.clone(),
                start: self.start,
                end: self.end,
                txn,
            }
        } else {
            LtrimDisposition::Unsupported
        }
    }
}

} // verus!
