//! The four stream x86 converter.
use crate::codecs::bcj::words;
use crate::codecs::bcj::words::shift;
use crate::codecs::lzma::range;
use crate::codecs::lzma::range::{probs, Dec, Prob, RangeDecoder};
use crate::utils::error::{Error, Result};
use vstd::prelude::*;

verus! {

const PROB_COUNT: usize = 258;

const E9: usize = 256;

const CONDITIONAL: usize = 257;

/// Whether a byte after another starts a jump.
pub open spec fn jumps(previous: u8, byte: u8) -> bool {
    byte & 0xFE == 0xE8 || (previous == 0x0F && byte & 0xF0 == 0x80)
}

/// The probability that goes with a jump.
pub open spec fn slot_of(previous: u8, byte: u8) -> int {
    if byte == 0xE8 {
        previous as int
    } else if byte == 0xE9 {
        256
    } else {
        257
    }
}

/// Where decoding stands.
#[verifier::ext_equal]
pub struct Mixed {
    /// How much of the main stream was read.
    pub main: int,
    /// How much of the calls.
    pub call: int,
    /// How much of the jumps.
    pub jump: int,
    /// The range decoder and its probabilities.
    pub dec: Dec,
    /// The last byte.
    pub previous: u8,
    /// What was produced.
    pub out: Seq<u8>,
}

/// The four streams.
pub struct Streams {
    pub main: Seq<u8>,
    pub call: Seq<u8>,
    pub jump: Seq<u8>,
    pub range: Seq<u8>,
}

/// The target of a jump in four bytes, the most significant byte first.
pub open spec fn target_at(s: Seq<u8>, at: int) -> u32 {
    words::be_word(s[at], s[at + 1], s[at + 2], s[at + 3])
}

/// The next byte of the main stream, and the target that belongs to it.
pub open spec fn step(z: Streams, s: Mixed) -> Option<Mixed> {
    let byte = z.main[s.main];
    let out = s.out.push(byte);
    let next = Mixed { main: s.main + 1, previous: byte, out, ..s };
    if !jumps(s.previous, byte) {
        Some(next)
    } else {
        let (bit, dec) = range::slot_read(z.range, s.dec, slot_of(s.previous, byte));
        if bit == 0 {
            Some(Mixed { dec, ..next })
        } else {
            let source = if byte == 0xE8 {
                z.call
            } else {
                z.jump
            };
            let at = if byte == 0xE8 {
                s.call
            } else {
                s.jump
            };
            if at + 4 > source.len() {
                None
            } else {
                let here = (out.len() % 0x1_0000_0000) as u32;
                let relative = words::shifted(
                    false,
                    target_at(source, at),
                    words::shifted(true, here, 4),
                );
                Some(
                    Mixed {
                        dec,
                        call: if byte == 0xE8 {
                            at + 4
                        } else {
                            s.call
                        },
                        jump: if byte == 0xE8 {
                            s.jump
                        } else {
                            at + 4
                        },
                        previous: (relative >> 24u32) as u8,
                        out: out + words::le_split(relative),
                        ..next
                    },
                )
            }
        }
    }
}

/// Everything up to the limit, or to the end of the main stream.
pub open spec fn run(z: Streams, s: Mixed, limit: int) -> Option<Seq<u8>>
    decreases z.main.len() - s.main,
{
    if s.out.len() >= limit {
        Some(s.out.take(limit))
    } else if s.main >= z.main.len() {
        Some(s.out)
    } else {
        match step(z, s) {
            None => None,
            Some(t) => {
                if t.main == s.main + 1 {
                    run(z, t, limit)
                } else {
                    None
                }
            },
        }
    }
}

/// Everything up to the limit, to the end of the main stream or to the first
/// target that is missing.
pub open spec fn held_from(z: Streams, s: Mixed, limit: int) -> Seq<u8>
    decreases z.main.len() - s.main,
{
    if s.out.len() >= limit {
        s.out.take(limit)
    } else if s.main >= z.main.len() {
        s.out
    } else {
        match step(z, s) {
            None => s.out,
            Some(t) => {
                if t.main == s.main + 1 {
                    held_from(z, t, limit)
                } else {
                    s.out
                }
            },
        }
    }
}

/// The start of decoding.
pub open spec fn start(z: Streams) -> Mixed {
    Mixed {
        main: 0,
        call: 0,
        jump: 0,
        dec: Dec { coder: range::start_coder(z.range), probs: Seq::new(258, |i: int| 1024u16) },
        previous: 0,
        out: Seq::empty(),
    }
}

/// What the streams decode to.
pub open spec fn decoded(z: Streams, limit: int) -> Option<Seq<u8>> {
    run(z, start(z), limit)
}

proof fn lemma_run_extends(z: Streams, s: Mixed, limit: int)
    requires
        limit >= 0,
    ensures
        run(z, s, limit) matches Some(all) ==> {
            let n = if s.out.len() < limit {
                s.out.len() as int
            } else {
                limit
            };
            all.len() >= n && all.take(n) == s.out.take(n)
        },
        ({
            let n = if s.out.len() < limit {
                s.out.len() as int
            } else {
                limit
            };
            let h = held_from(z, s, limit);
            h.len() >= n && h.take(n) == s.out.take(n)
        }),
    decreases z.main.len() - s.main,
{
    if s.out.len() < limit && s.main < z.main.len() {
        if let Some(t) = step(z, s) {
            lemma_run_extends(z, t, limit);
            let h = held_from(z, t, limit);
            let n = s.out.len() as int;
            let m = if t.out.len() < limit {
                t.out.len() as int
            } else {
                limit
            };
            assert(h.take(n) =~= h.take(m).take(n));
            assert(t.out.take(m).take(n) =~= s.out);
            assert(s.out.take(n) =~= s.out);
            if let Some(all) = run(z, t, limit) {
                let n = s.out.len() as int;
                let m = if t.out.len() < limit {
                    t.out.len() as int
                } else {
                    limit
                };
                assert(all.take(n) =~= all.take(m).take(n));
                assert(t.out.take(m).take(n) =~= s.out);
                assert(s.out.take(n) =~= s.out);
            }
        }
    } else if s.out.len() >= limit {
        assert(s.out.take(limit).take(limit) =~= s.out.take(limit));
    }
}

fn is_jump(previous: u8, byte: u8) -> (r: bool)
    ensures
        r == jumps(previous, byte),
{
    byte & 0xFE == 0xE8 || (previous == 0x0F && byte & 0xF0 == 0x80)
}

/// Puts x86 code together from its bytes, the targets of its calls and jumps,
/// and a stream that says which of them were taken out.
pub struct Bcj2Decoder {
    main: Vec<u8>,
    call: Vec<u8>,
    jump: Vec<u8>,
    range: RangeDecoder,
    probs: Vec<Prob>,
    previous: u8,
    position: u32,
    pending: [u8; 4],
    pending_at: usize,
    limit: u64,
    produced: u64,
    main_at: usize,
    call_at: usize,
    jump_at: usize,
    out: Ghost<Seq<u8>>,
}

impl Bcj2Decoder {
    /// The four streams.
    pub closed spec fn streams(&self) -> Streams {
        Streams {
            main: self.main@,
            call: self.call@,
            jump: self.jump@,
            range: self.range.data(),
        }
    }

    /// How much is produced at most.
    pub closed spec fn wanted(&self) -> int {
        self.limit as int
    }

    /// What the streams decode to.
    pub open spec fn stream(&self) -> Option<Seq<u8>> {
        decoded(self.streams(), self.wanted())
    }

    /// What the streams decode to, or where a target is missing, what they
    /// decode to before it.
    pub open spec fn held(&self) -> Seq<u8> {
        held_from(self.streams(), start(self.streams()), self.wanted())
    }

    /// What was read so far.
    pub closed spec fn delivered(&self) -> Seq<u8> {
        self.out@
    }

    /// What was decoded so far, read or not.
    spec fn state(&self) -> Mixed {
        Mixed {
            main: self.main_at as int,
            call: self.call_at as int,
            jump: self.jump_at as int,
            dec: Dec { coder: self.range.coder(), probs: self.probs@ },
            previous: self.previous,
            out: self.out@ + self.pending@.skip(self.pending_at as int),
        }
    }

    /// Whether everything was read.
    pub closed spec fn done(&self) -> bool {
        self.produced >= self.limit || self.main_at >= self.main@.len() && self.pending_at == 4
    }

    /// The decoder stands somewhere in its streams.
    pub closed spec fn wf(&self) -> bool {
        &&& self.range.wf()
        &&& range::probs_ok(self.probs@)
        &&& self.probs@.len() == PROB_COUNT
        &&& self.pending_at <= 4
        &&& self.main_at <= self.main@.len()
        &&& self.call_at <= self.call@.len()
        &&& self.jump_at <= self.jump@.len()
        &&& self.produced == self.out@.len()
        &&& self.produced <= self.limit
        &&& self.position == self.out@.len() % 0x1_0000_0000
        &&& self.stream() == run(self.streams(), self.state(), self.limit as int)
        &&& self.held() == held_from(self.streams(), self.state(), self.limit as int)
    }

    /// What was read is a start of what the streams decode to; at the end it
    /// is all of it.
    pub proof fn lemma_delivered(&self)
        requires
            self.wf(),
        ensures
            self.stream() matches Some(all) ==> self.delivered().is_prefix_of(all),
            self.delivered().is_prefix_of(self.held()),
            self.done() ==> self.stream() == Some(self.delivered()),
    {
        let s = self.state();
        let limit = self.limit as int;
        lemma_run_extends(self.streams(), s, limit);
        let h = self.held();
        let m = if s.out.len() < limit {
            s.out.len() as int
        } else {
            limit
        };
        let j = self.out@.len() as int;
        assert(h.take(j) =~= h.take(m).take(j));
        assert(s.out.take(m).take(j) =~= self.out@);
        if let Some(all) = self.stream() {
            let n = if s.out.len() < limit {
                s.out.len() as int
            } else {
                limit
            };
            let k = self.out@.len() as int;
            assert(all.take(k) =~= all.take(n).take(k));
            assert(s.out.take(n).take(k) =~= self.out@);
        }
        if self.done() {
            assert(self.produced >= self.limit ==> s.out.take(limit) =~= self.out@);
            assert(self.pending_at == 4 ==> s.out =~= self.out@);
        }
    }

    /// A decoder of these streams, for at most `limit` bytes. It fails where
    /// the range coded stream is too short to start.
    pub fn new(main: Vec<u8>, call: Vec<u8>, jump: Vec<u8>, range: Vec<u8>, limit: u64) -> (r: Result<
        Self,
    >)
        ensures
            r is Ok <==> range@.len() >= 5,
            r matches Ok(d) ==> d.wf() && d.streams() == (Streams {
                main: main@,
                call: call@,
                jump: jump@,
                range: range@,
            }) && d.wanted() == limit && d.delivered() == Seq::<u8>::empty(),
            r matches Err(e) ==> e == Error::Malformed,
    {
        match RangeDecoder::new(range) {
            Err(e) => Err(e),
            Ok(coder) => {
                let r: Bcj2Decoder = Bcj2Decoder {
                    main,
                    call,
                    jump,
                    range: coder,
                    probs: probs(PROB_COUNT),
                    previous: 0,
                    position: 0,
                    pending: [0u8; 4],
                    pending_at: 4,
                    limit,
                    produced: 0,
                    main_at: 0,
                    call_at: 0,
                    jump_at: 0,
                    out: Ghost(Seq::empty()),
                };
                proof {
                    assert(r.probs@ =~= Seq::new(258, |i: int| 1024u16));
                    assert(r.state() =~= start(r.streams()));
                }
                Ok(r)
            },
        }
    }

    fn emit(&mut self, byte: u8, buf: &mut [u8], written: usize)
        requires
            written < old(buf).len(),
            old(self).produced < old(self).limit,
            old(self).produced == old(self).out@.len(),
            old(self).position == old(self).out@.len() % 0x1_0000_0000,
        ensures
            final(buf)@ == old(buf)@.update(written as int, byte),
            final(self).out@ == old(self).out@.push(byte),
            final(self).produced == old(self).produced + 1,
            final(self).position == final(self).out@.len() % 0x1_0000_0000,
            *final(self) == (Bcj2Decoder {
                out: final(self).out,
                produced: final(self).produced,
                position: final(self).position,
                ..*old(self)
            }),
    {
        buf[written] = byte;
        let ghost more = self.out@.push(byte);
        self.position = self.position.wrapping_add(1);
        self.produced = self.produced + 1;
        self.out = Ghost(more);
    }

    /// Read the next bytes into `buf`, as many as there are and as fit.
    #[verifier::rlimit(60)]
    #[verifier::spinoff_prover]
    pub fn read(&mut self, buf: &mut [u8]) -> (r: Result<usize>)
        requires
            old(self).wf(),
        ensures
            final(buf)@.len() == old(buf)@.len(),
            r matches Ok(n) ==> {
                &&& final(self).wf()
                &&& final(self).streams() == old(self).streams()
                &&& final(self).wanted() == old(self).wanted()
                &&& n <= old(buf)@.len()
                &&& final(self).delivered() == old(self).delivered() + final(buf)@.take(n as int)
                &&& final(buf)@.skip(n as int) == old(buf)@.skip(n as int)
                &&& n < old(buf)@.len() ==> final(self).done()
            },
            r matches Err(e) ==> e == Error::Malformed && old(self).stream() is None && old(
                self,
            ).delivered().is_prefix_of(old(self).held()),
    {
        let mut written: usize = 0;
        proof {
            self.lemma_delivered();
        }
        assert(buf@.take(0) =~= Seq::<u8>::empty());
        while written < buf.len() && self.produced < self.limit
            invariant
                self.wf(),
                self.streams() == old(self).streams(),
                self.limit == old(self).limit,
                old(self).delivered().is_prefix_of(old(self).held()),
                buf@.len() == old(buf)@.len(),
                written <= buf@.len(),
                self.out@ == old(self).out@ + buf@.take(written as int),
                buf@.skip(written as int) == old(buf)@.skip(written as int),
            ensures
                self.wf(),
                self.streams() == old(self).streams(),
                self.limit == old(self).limit,
                buf@.len() == old(buf)@.len(),
                written <= buf@.len(),
                self.out@ == old(self).out@ + buf@.take(written as int),
                buf@.skip(written as int) == old(buf)@.skip(written as int),
                written < buf@.len() ==> self.done(),
            decreases buf@.len() - written,
        {
            let ghost was = buf@;
            let ghost s = self.state();
            let ghost z = self.streams();
            let ghost given = old(buf)@;
            if self.pending_at < 4 {
                let byte: u8 = self.pending[self.pending_at];
                self.pending_at = self.pending_at + 1;
                self.emit(byte, buf, written);
                written = written + 1;
                proof {
                    assert(buf@.take(written as int) =~= was.take(written - 1).push(byte));
                    assert(buf@.skip(written as int) =~= was.skip(written - 1).skip(1));
                    assert(given.skip(written as int) =~= given.skip(written - 1).skip(1));
                    assert(self.state() =~= s);
                    assert(self.out@ =~= old(self).out@ + buf@.take(written as int));
                }
                continue ;
            }
            if self.main_at >= self.main.len() {
                break;
            }
            assert(s.out =~= self.out@);
            let byte: u8 = self.main[self.main_at];
            self.main_at = self.main_at + 1;
            self.emit(byte, buf, written);
            written = written + 1;
            proof {
                assert(buf@.take(written as int) =~= was.take(written - 1).push(byte));
                assert(buf@.skip(written as int) =~= was.skip(written - 1).skip(1));
                assert(given.skip(written as int) =~= given.skip(written - 1).skip(1));
                assert(self.out@ =~= old(self).out@ + buf@.take(written as int));
                assert(self.out@ == s.out.push(byte));
                assert(self.pending@.skip(4) =~= Seq::<u8>::empty());
            }
            let previous: u8 = self.previous;
            if !is_jump(previous, byte) {
                self.previous = byte;
                assert(Some(self.state()) == step(z, s)) by {
                    assert(self.state() =~= step(z, s)->Some_0);
                }
                continue ;
            }
            let slot: usize = if byte == 0xE8 {
                previous as usize
            } else if byte == 0xE9 {
                E9
            } else {
                CONDITIONAL
            };
            if self.range.slot(&mut self.probs, slot) == 0 {
                self.previous = byte;
                assert(Some(self.state()) == step(z, s)) by {
                    assert(self.state() =~= step(z, s)->Some_0);
                }
                continue ;
            }
            let target: u32 = if byte == 0xE8 {
                if self.call.len() - self.call_at < 4 {
                    return Err(Error::Malformed);
                }
                let at: usize = self.call_at;
                self.call_at = at + 4;
                get_be(self.call.as_slice(), at)
            } else {
                if self.jump.len() - self.jump_at < 4 {
                    return Err(Error::Malformed);
                }
                let at: usize = self.jump_at;
                self.jump_at = at + 4;
                get_be(self.jump.as_slice(), at)
            };
            let relative: u32 = shift(false, target, shift(true, self.position, 4));
            self.pending = [
                #[verifier::truncate]
                (relative as u8),
                #[verifier::truncate]
                ((relative >> 8) as u8),
                #[verifier::truncate]
                ((relative >> 16) as u8),
                #[verifier::truncate]
                ((relative >> 24) as u8),
            ];
            self.pending_at = 0;
            self.previous = #[verifier::truncate]
            ((relative >> 24) as u8);
            assert(Some(self.state()) == step(z, s)) by {
                assert(self.pending@.skip(0) =~= words::le_split(relative));
                assert(self.state() =~= step(z, s)->Some_0);
            }
        }
        Ok(written)
    }
}

fn get_be(data: &[u8], at: usize) -> (r: u32)
    requires
        at + 4 <= data.len(),
    ensures
        r == target_at(data@, at as int),
{
    (data[at + 3] as u32) | ((data[at + 2] as u32) << 8) | ((data[at + 1] as u32) << 16) | ((
    data[at] as u32) << 24)
}

} // verus!
