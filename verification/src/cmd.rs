use vstd::prelude::*;
use vstd::arithmetic::div_mod::{lemma_fundamental_div_mod, lemma_mod_bound};

pub mod debug;
pub mod ltrim;

verus! {

broadcast use vstd::seq::group_seq_axioms;

/// Why pulling the next typed argument failed.
#[derive(Clone, Copy, Debug, PartialEq, Eq, Structural)]
pub enum ParseError {
    /// No argument is left.
    EndOfStream,
    /// The argument is not of the requested shape.
    Invalid,
}

pub open spec fn spec_is_digit(b: u8) -> bool {
    48 <= b <= 57
}

pub open spec fn spec_all_digits(s: Seq<u8>) -> bool {
    forall|i: int| 0 <= i < s.len() ==> spec_is_digit(#[trigger] s[i])
}

/// The number an all-digit byte string stands for.
pub open spec fn spec_dec_val(s: Seq<u8>) -> int
    decreases s.len(),
{
    if s.len() == 0 {
        0
    } else {
        spec_dec_val(s.drop_last()) * 10 + (s.last() - 48)
    }
}

/// A decimal integer literal: an optional sign, then at least one digit.
pub open spec fn spec_int_shape(s: Seq<u8>) -> bool {
    if s.len() == 0 {
        false
    } else if s[0] == 45 || s[0] == 43 {
        s.len() >= 2 && spec_all_digits(s.skip(1))
    } else {
        spec_all_digits(s)
    }
}

/// The signed value of a decimal integer literal.
pub open spec fn spec_int_value(s: Seq<u8>) -> int {
    if s.len() > 0 && s[0] == 45 {
        -spec_dec_val(s.skip(1))
    } else if s.len() > 0 && s[0] == 43 {
        spec_dec_val(s.skip(1))
    } else {
        spec_dec_val(s)
    }
}

/// A byte string that reads as a 64-bit signed integer.
pub open spec fn spec_is_i64(s: Seq<u8>) -> bool {
    spec_int_shape(s) && i64::MIN <= spec_int_value(s) <= i64::MAX
}

proof fn lemma_dec_val_nonneg(s: Seq<u8>)
    requires
        spec_all_digits(s),
    ensures
        spec_dec_val(s) >= 0,
    decreases s.len(),
{
    if s.len() > 0 {
        assert(spec_all_digits(s.drop_last()));
        lemma_dec_val_nonneg(s.drop_last());
    }
}

/// Appending digits never shrinks the value.
proof fn lemma_dec_val_prefix(s: Seq<u8>, k: int)
    requires
        spec_all_digits(s),
        0 <= k <= s.len(),
    ensures
        spec_dec_val(s.subrange(0, k)) <= spec_dec_val(s),
    decreases s.len(),
{
    if k == s.len() {
        assert(s.subrange(0, k) =~= s);
    } else {
        let p = s.drop_last();
        assert(spec_all_digits(p));
        assert(s.subrange(0, k) =~= p.subrange(0, k));
        lemma_dec_val_prefix(p, k);
        lemma_dec_val_nonneg(p);
    }
}

/// Reads a decimal 64-bit signed integer, with overflow rejected, as the
/// textual protocol sends numeric arguments.
pub fn parse_i64(s: &[u8]) -> (r: Option<i64>)
    ensures
        r is Some <==> spec_is_i64(s@),
        r matches Some(v) ==> v as int == spec_int_value(s@),
{
    let n = s.len();
    if n == 0 {
        return None;
    }
    let neg = s[0] == 45;
    let signed = neg || s[0] == 43;
    let start: usize = if signed {
        1
    } else {
        0
    };
    if n == start {
        return None;
    }
    let limit: u64 = if neg {
        0x8000_0000_0000_0000
    } else {
        0x7fff_ffff_ffff_ffff
    };
    let mut acc: u64 = 0;
    let mut i: usize = start;
    while i < n
        invariant
            start <= i <= n,
            n == s@.len(),
            start == (if neg || (s@.len() > 0 && s@[0] == 43) {
                1int
            } else {
                0int
            }),
            neg == (s@.len() > 0 && s@[0] == 45),
            n > start,
            limit == (if neg {
                0x8000_0000_0000_0000u64
            } else {
                0x7fff_ffff_ffff_ffffu64
            }),
            spec_all_digits(s@.subrange(start as int, i as int)),
            acc as int == spec_dec_val(s@.subrange(start as int, i as int)),
            acc <= limit,
        decreases n - i,
    {
        let b = s[i];
        if b < 48 || b > 57 {
            proof {
                let run = s@.subrange(start as int, n as int);
                assert(!spec_is_digit(run[i - start]));
                assert(!spec_all_digits(run));
                if start == 1 {
                    assert(s@.skip(1) =~= run);
                } else {
                    assert(s@ =~= run);
                }
                assert(!spec_int_shape(s@));
            }
            return None;
        }
        let d = (b - 48) as u64;
        if acc > (limit - d) / 10 {
            proof {
                lemma_fundamental_div_mod((limit - d) as int, 10);
                lemma_mod_bound((limit - d) as int, 10);
                let pre = s@.subrange(start as int, i as int + 1);
                assert(pre.drop_last() =~= s@.subrange(start as int, i as int));
                assert(spec_dec_val(pre) == acc * 10 + d);
                assert(spec_dec_val(pre) > limit);
                let run = s@.subrange(start as int, n as int);
                if spec_int_shape(s@) {
                    if start == 1 {
                        assert(s@.skip(1) =~= run);
                    } else {
                        assert(s@ =~= run);
                    }
                    assert(spec_all_digits(run));
                    assert(pre =~= run.subrange(0, i + 1 - start));
                    lemma_dec_val_prefix(run, i + 1 - start);
                    assert(spec_dec_val(run) > limit);
                    if neg {
                        assert(spec_int_value(s@) < i64::MIN);
                    } else {
                        assert(spec_int_value(s@) > i64::MAX);
                    }
                }
            }
            return None;
        }
        proof {
            lemma_fundamental_div_mod((limit - d) as int, 10);
            lemma_mod_bound((limit - d) as int, 10);
            let pre = s@.subrange(start as int, i as int + 1);
            assert(pre.drop_last() =~= s@.subrange(start as int, i as int));
        }
        acc = acc * 10 + d;
        i = i + 1;
    }
    proof {
        let run = s@.subrange(start as int, n as int);
        if start == 1 {
            assert(s@.skip(1) =~= run);
        } else {
            assert(s@ =~= run);
        }
        assert(spec_int_shape(s@));
    }
    if neg {
        if acc == 0x8000_0000_0000_0000u64 {
            Some(i64::MIN)
        } else {
            Some(-(acc as i64))
        }
    } else {
        Some(acc as i64)
    }
}

/// A cursor over the already-framed arguments of one protocol command, as
/// the dispatch layer hands them to a command parser.
pub struct Parse {
    args: Vec<String>,
    pos: usize,
}

impl Parse {
    /// The arguments, as character strings.
    pub closed spec fn spec_args(&self) -> Seq<Seq<char>> {
        self.args.deep_view()
    }

    /// How many arguments were consumed.
    pub closed spec fn spec_pos(&self) -> int {
        self.pos as int
    }

    pub fn new(args: Vec<String>) -> (r: Parse)
        ensures
            r.spec_args() == args.deep_view(),
            r.spec_pos() == 0,
    {
        Parse { args, pos: 0 }
    }

    /// The next argument as a string. Consumes it; `EndOfStream` when none
    /// is left.
    pub fn next_string(&mut self) -> (r: Result<String, ParseError>)
        ensures
            final(self).spec_args() == old(self).spec_args(),
            old(self).spec_pos() < old(self).spec_args().len() ==> {
                &&& r matches Ok(s) && s@ == old(self).spec_args()[old(self).spec_pos()]
                &&& final(self).spec_pos() == old(self).spec_pos() + 1
            },
            old(self).spec_pos() >= old(self).spec_args().len() ==> {
                &&& r == Err::<String, ParseError>(ParseError::EndOfStream)
                &&& final(self).spec_pos() == old(self).spec_pos()
            },
    {
        if self.pos < self.args.len() {
            let s = self.args[self.pos].clone();
            self.pos = self.pos + 1;
            Ok(s)
        } else {
            Err(ParseError::EndOfStream)
        }
    }

    /// The next argument as a signed 64-bit integer. Consumes the argument;
    /// `EndOfStream` when none is left, `Invalid` when it does not read as
    /// an integer.
    pub fn next_int(&mut self) -> (r: Result<i64, ParseError>)
        ensures
            final(self).spec_args() == old(self).spec_args(),
            old(self).spec_pos() >= old(self).spec_args().len() ==> {
                &&& r == Err::<i64, ParseError>(ParseError::EndOfStream)
                &&& final(self).spec_pos() == old(self).spec_pos()
            },
            old(self).spec_pos() < old(self).spec_args().len() ==> {
                &&& final(self).spec_pos() == old(self).spec_pos() + 1
                &&& {
                    let bytes = vstd::utf8::encode_utf8(
                        old(self).spec_args()[old(self).spec_pos()],
                    );
                    if spec_is_i64(bytes) {
                        r matches Ok(v) && v as int == spec_int_value(bytes)
                    } else {
                        r == Err::<i64, ParseError>(ParseError::Invalid)
                    }
                }
            },
    {
        if self.pos < self.args.len() {
            let parsed = parse_i64(self.args[self.pos].as_str().as_bytes());
            self.pos = self.pos + 1;
            match parsed {
                Some(v) => Ok(v),
                None => Err(ParseError::Invalid),
            }
        } else {
            Err(ParseError::EndOfStream)
        }
    }
}

} // verus!
