//! The sequences section of a block: runs of literals and matches.
use crate::codecs::lzma::window::Window;
use crate::codecs::zstd::bits as stream;
use crate::codecs::zstd::bits::BackwardBits;
use crate::codecs::zstd::fse;
use crate::codecs::zstd::fse::{State, Table};
use crate::utils::bits;
use crate::utils::bits::power_of_two;
use crate::utils::error::{Error, Result};
use crate::utils::lz;
use vstd::arithmetic::power2::*;
use vstd::prelude::*;

verus! {

pub const LITERAL_LENGTH_EXTRA: [u8; 36] = [
    0, 0, 0, 0, 0, 0, 0, 0, 0, 0, 0, 0, 0, 0, 0, 0, 1, 1, 1, 1, 2, 2, 3, 3, 4, 6, 7, 8, 9, 10, 11,
    12, 13, 14, 15, 16,
];

pub const LITERAL_LENGTH_BASE: [u32; 36] = [
    0, 1, 2, 3, 4, 5, 6, 7, 8, 9, 10, 11, 12, 13, 14, 15, 16, 18, 20, 22, 24, 28, 32, 40, 48, 64,
    128, 256, 512, 1024, 2048, 4096, 8192, 16384, 32768, 65536,
];

pub const MATCH_LENGTH_EXTRA: [u8; 53] = [
    0, 0, 0, 0, 0, 0, 0, 0, 0, 0, 0, 0, 0, 0, 0, 0, 0, 0, 0, 0, 0, 0, 0, 0, 0, 0, 0, 0, 0, 0, 0, 0,
    1, 1, 1, 1, 2, 2, 3, 3, 4, 4, 5, 7, 8, 9, 10, 11, 12, 13, 14, 15, 16,
];

pub const MATCH_LENGTH_BASE: [u32; 53] = [
    3, 4, 5, 6, 7, 8, 9, 10, 11, 12, 13, 14, 15, 16, 17, 18, 19, 20, 21, 22, 23, 24, 25, 26, 27, 28,
    29, 30, 31, 32, 33, 34, 35, 37, 39, 41, 43, 47, 51, 59, 67, 83, 99, 131, 259, 515, 1027, 2051,
    4099, 8195, 16387, 32771, 65539,
];

pub const DEFAULT_LITERAL_LENGTH: [i32; 36] = [
    4, 3, 2, 2, 2, 2, 2, 2, 2, 2, 2, 2, 2, 1, 1, 1, 2, 2, 2, 2, 2, 2, 2, 2, 2, 3, 2, 1, 1, 1, 1, 1,
    -1, -1, -1, -1,
];

pub const DEFAULT_MATCH_LENGTH: [i32; 53] = [
    1, 4, 3, 2, 2, 2, 2, 2, 2, 1, 1, 1, 1, 1, 1, 1, 1, 1, 1, 1, 1, 1, 1, 1, 1, 1, 1, 1, 1, 1, 1, 1,
    1, 1, 1, 1, 1, 1, 1, 1, 1, 1, 1, 1, 1, 1, -1, -1, -1, -1, -1, -1, -1,
];

pub const DEFAULT_OFFSET: [i32; 29] = [
    1, 1, 1, 1, 1, 1, 2, 2, 2, 1, 1, 1, 1, 1, 1, 1, 1, 1, 1, 1, 1, 1, 1, 1, -1, -1, -1, -1, -1,
];

pub const DEFAULT_LITERAL_LENGTH_LOG: u32 = 6;

pub const DEFAULT_MATCH_LENGTH_LOG: u32 = 6;

pub const DEFAULT_OFFSET_LOG: u32 = 5;

pub const MAX_LITERAL_LENGTH_SYMBOL: usize = 35;

pub const MAX_MATCH_LENGTH_SYMBOL: usize = 52;

pub const MAX_OFFSET_SYMBOL: usize = 31;

/// The most bytes that one stream may produce.
pub const MAX_TOTAL: u64 = 0x7fff_ffff_ffff_ffff;

/// The tables that a frame has sent last.
#[verifier::ext_equal]
pub struct Sent {
    pub literal_length: Option<fse::States>,
    pub offset: Option<fse::States>,
    pub match_length: Option<fse::States>,
}

/// Whether a table that was sent leads nowhere outside it.
pub open spec fn sound(t: Option<fse::States>) -> bool {
    t matches Some(s) ==> s.valid()
}

/// The tables that a frame has sent last.
pub struct Tables {
    literal_length: Option<Table>,
    offset: Option<Table>,
    match_length: Option<Table>,
}

spec fn seen(t: Option<Table>) -> Option<fse::States> {
    match t {
        Some(x) => Some(x@),
        None => None,
    }
}

impl View for Tables {
    type V = Sent;

    closed spec fn view(&self) -> Sent {
        Sent {
            literal_length: seen(self.literal_length),
            offset: seen(self.offset),
            match_length: seen(self.match_length),
        }
    }
}

/// No table.
pub open spec fn none_sent() -> Sent {
    Sent { literal_length: None, offset: None, match_length: None }
}

impl Default for Tables {
    fn default() -> (r: Self)
        ensures
            r@ == none_sent(),
            r@.valid(),
    {
        Tables { literal_length: None, offset: None, match_length: None }
    }
}

impl Sent {
    /// The tables lead nowhere outside them.
    pub open spec fn valid(self) -> bool {
        sound(self.literal_length) && sound(self.offset) && sound(self.match_length)
    }
}

/// How a block says which table it uses.
#[derive(Debug, Clone, Copy, PartialEq, Eq, Structural)]
enum Mode {
    Predefined,
    Rle,
    Compressed,
    Repeat,
}

impl Mode {
    spec fn number(self) -> nat {
        match self {
            Mode::Predefined => 0,
            Mode::Rle => 1,
            Mode::Compressed => 2,
            Mode::Repeat => 3,
        }
    }

    fn from_bits(value: u8) -> (r: Self)
        ensures
            value <= 3 ==> r.number() == value,
            value > 3 ==> r == Mode::Repeat,
    {
        match value {
            0 => Mode::Predefined,
            1 => Mode::Rle,
            2 => Mode::Compressed,
            _ => Mode::Repeat,
        }
    }
}

/// The table that a block uses, what is behind it, `mode` saying how it is
/// given.
pub open spec fn table_at(
    mode: nat,
    data: Seq<u8>,
    at: nat,
    sent: Option<fse::States>,
    default_counts: Seq<i32>,
    default_log: nat,
    max_symbol: nat,
) -> Result<(fse::States, nat)> {
    if mode == 0 {
        match fse::built(default_counts, default_log) {
            Err(e) => Err(e),
            Ok(t) => Ok((t, at)),
        }
    } else if mode == 1 {
        if at < data.len() {
            Ok((fse::single_states(data[at as int]), at + 1))
        } else {
            Err(Error::Malformed)
        }
    } else if mode == 2 {
        if at > data.len() {
            Err(Error::Malformed)
        } else {
            match fse::parsed(data.skip(at as int), fse::MAX_TABLE_LOG as nat, max_symbol) {
                Err(e) => Err(e),
                Ok((t, n)) => if at + n > data.len() {
                    Err(Error::Malformed)
                } else {
                    Ok((t, at + n))
                },
            }
        }
    } else {
        match sent {
            None => Err(Error::Malformed),
            Some(t) => Ok((t, at)),
        }
    }
}

/// How many sequences a section holds, and how many bytes say so.
pub open spec fn counted(data: Seq<u8>) -> Result<(nat, nat)> {
    if data.len() == 0 {
        Err(Error::Malformed)
    } else if data[0] < 128 {
        Ok((data[0] as nat, 1))
    } else if data[0] < 255 {
        if data.len() < 2 {
            Err(Error::Malformed)
        } else {
            Ok((((data[0] - 128) * 256 + data[1]) as nat, 2))
        }
    } else if data.len() < 3 {
        Err(Error::Malformed)
    } else {
        Ok(((data[1] + data[2] * 256 + 0x7F00) as nat, 3))
    }
}

/// The distance that an offset value means, and the recent distances after
/// it. Values up to three name one of them.
pub open spec fn resolved(raw: nat, literal_length: nat, repeats: Seq<u32>) -> Result<
    (nat, Seq<u32>),
> {
    if raw > 3 {
        Ok(((raw - 3) as nat, seq![(raw - 3) as u32, repeats[0], repeats[1]]))
    } else {
        let index = raw - 1 + if literal_length == 0 {
            1int
        } else {
            0
        };
        let distance: int = if index == 3 {
            if repeats[0] == 0 {
                0
            } else {
                repeats[0] - 1
            }
        } else {
            repeats[index] as int
        };
        if distance == 0 {
            Err(Error::Malformed)
        } else if index == 0 {
            Ok((distance as nat, repeats))
        } else if index == 1 {
            Ok((distance as nat, seq![repeats[1], repeats[0], repeats[2]]))
        } else {
            Ok((distance as nat, seq![distance as u32, repeats[0], repeats[1]]))
        }
    }
}

/// What does not change from sequence to sequence.
#[verifier::ext_equal]
pub struct Setting {
    /// The stream of states and extra bits.
    pub data: Seq<u8>,
    pub literal_length: fse::States,
    pub offset: fse::States,
    pub match_length: fse::States,
    pub literals: Seq<u8>,
    /// How far back a match may reach.
    pub window: nat,
    /// How long the frame's output may become.
    pub room: nat,
}

/// How far a block has come.
#[verifier::ext_equal]
pub struct Place {
    pub literal_length: nat,
    pub offset: nat,
    pub match_length: nat,
    pub back: stream::Back,
    /// How many literals were used.
    pub used: nat,
    pub repeats: Seq<u32>,
    pub out: Seq<u8>,
}

/// Output with some literals and a match behind it.
pub open spec fn emitted(
    s: Setting,
    out: Seq<u8>,
    used: nat,
    literal_length: nat,
    distance: nat,
    match_length: nat,
) -> Option<Seq<u8>> {
    if used + literal_length > s.literals.len() {
        None
    } else {
        let with = out + s.literals.subrange(used as int, (used + literal_length) as int);
        if distance > with.len() || distance > s.window || with.len() + match_length > s.room {
            None
        } else {
            Some(lz::copied(with, distance as int, match_length))
        }
    }
}

/// One sequence with the given codes, the states staying where they are.
#[verifier::opaque]
pub open spec fn coded_sequence(
    s: Setting,
    p: Place,
    offset_code: nat,
    match_code: nat,
    literal_code: nat,
) -> Result<Place> {
    if offset_code > 31 || match_code >= 53 || literal_code >= 36 {
        Err(Error::Malformed)
    } else {
        let raw = pow2(offset_code) + stream::back_value(s.data, p.back, offset_code);
        let b1 = stream::back_after(p.back, offset_code);
        let mx = MATCH_LENGTH_EXTRA@[match_code as int] as nat;
        let match_length = MATCH_LENGTH_BASE@[match_code as int] as nat + stream::back_value(
            s.data,
            b1,
            mx,
        );
        let b2 = stream::back_after(b1, mx);
        let lx = LITERAL_LENGTH_EXTRA@[literal_code as int] as nat;
        let literal_length = LITERAL_LENGTH_BASE@[literal_code as int] as nat + stream::back_value(
            s.data,
            b2,
            lx,
        );
        let b3 = stream::back_after(b2, lx);
        match resolved(raw, literal_length, p.repeats) {
            Err(e) => Err(e),
            Ok((distance, repeats)) => match emitted(
                s,
                p.out,
                p.used,
                literal_length,
                distance,
                match_length,
            ) {
                None => Err(Error::Malformed),
                Some(out) => Ok(
                    Place { back: b3, used: p.used + literal_length, repeats, out, ..p },
                ),
            },
        }
    }
}

/// One sequence, the states staying where they are.
pub open spec fn one_sequence(s: Setting, p: Place) -> Result<Place> {
    coded_sequence(
        s,
        p,
        s.offset.entries[p.offset as int].symbol as nat,
        s.match_length.entries[p.match_length as int].symbol as nat,
        s.literal_length.entries[p.literal_length as int].symbol as nat,
    )
}

/// The states of the next sequence.
pub open spec fn advanced(s: Setting, p: Place) -> Place {
    let (l, b1) = fse::next_state(s.literal_length, p.literal_length, s.data, p.back);
    let (m, b2) = fse::next_state(s.match_length, p.match_length, s.data, b1);
    let (o, b3) = fse::next_state(s.offset, p.offset, s.data, b2);
    Place { literal_length: l, match_length: m, offset: o, back: b3, ..p }
}

/// `n` sequences and the literals behind them: the output and the recent
/// distances.
pub open spec fn run(s: Setting, p: Place, n: nat) -> Result<(Seq<u8>, Seq<u32>)>
    decreases n,
{
    if n == 0 {
        let rest = s.literals.skip(p.used as int);
        if p.out.len() + rest.len() > s.room {
            Err(Error::Malformed)
        } else {
            Ok((p.out + rest, p.repeats))
        }
    } else {
        match one_sequence(s, p) {
            Err(e) => Err(e),
            Ok(q) => run(
                s,
                if n > 1 {
                    advanced(s, q)
                } else {
                    q
                },
                (n - 1) as nat,
            ),
        }
    }
}

/// The first states of a block.
pub open spec fn start(s: Setting, payload: nat, repeats: Seq<u32>, out: Seq<u8>) -> Place {
    let (l, b1) = fse::first_state(
        s.literal_length,
        s.data,
        stream::Back { left: payload, over: false },
    );
    let (o, b2) = fse::first_state(s.offset, s.data, b1);
    let (m, b3) = fse::first_state(s.match_length, s.data, b2);
    Place { literal_length: l, offset: o, match_length: m, back: b3, used: 0, repeats, out }
}

/// What a block leaves behind it.
#[verifier::ext_equal]
pub struct Done {
    pub out: Seq<u8>,
    pub sent: Sent,
    pub repeats: Seq<u32>,
}

/// The three tables of a section whose mode byte stands at `at`, and where
/// the stream starts.
pub open spec fn tables_at(data: Seq<u8>, at: nat, sent: Sent) -> Result<(Sent, nat)> {
    if at >= data.len() || data[at as int] % 4 != 0 {
        Err(Error::Malformed)
    } else {
        let modes = data[at as int];
        match table_at(
            (modes / 64) as nat,
            data,
            at + 1,
            sent.literal_length,
            DEFAULT_LITERAL_LENGTH@,
            DEFAULT_LITERAL_LENGTH_LOG as nat,
            MAX_LITERAL_LENGTH_SYMBOL as nat,
        ) {
            Err(e) => Err(e),
            Ok((l, p)) => match table_at(
                (modes / 16 % 4) as nat,
                data,
                p,
                sent.offset,
                DEFAULT_OFFSET@,
                DEFAULT_OFFSET_LOG as nat,
                MAX_OFFSET_SYMBOL as nat,
            ) {
                Err(e) => Err(e),
                Ok((o, q)) => match table_at(
                    (modes / 4 % 4) as nat,
                    data,
                    q,
                    sent.match_length,
                    DEFAULT_MATCH_LENGTH@,
                    DEFAULT_MATCH_LENGTH_LOG as nat,
                    MAX_MATCH_LENGTH_SYMBOL as nat,
                ) {
                    Err(e) => Err(e),
                    Ok((m, r)) => Ok(
                        (
                            Sent {
                                literal_length: Some(l),
                                offset: Some(o),
                                match_length: Some(m),
                            },
                            r,
                        ),
                    ),
                },
            },
        }
    }
}

/// A whole section: what it adds to `out`, the tables and recent distances
/// that it leaves.
pub open spec fn executed(
    data: Seq<u8>,
    literals: Seq<u8>,
    window: nat,
    room: nat,
    d: Done,
) -> Result<Done> {
    match counted(data) {
        Err(e) => Err(e),
        Ok((count, at)) => if count == 0 {
            if d.out.len() + literals.len() > room {
                Err(Error::Malformed)
            } else {
                Ok(Done { out: d.out + literals, ..d })
            }
        } else {
            match tables_at(data, at, d.sent) {
                Err(e) => Err(e),
                Ok((sent, begin)) => if begin > data.len() {
                    Err(Error::Malformed)
                } else {
                    let body = data.skip(begin as int);
                    match stream::payload(body) {
                        None => Err(Error::Malformed),
                        Some(payload) => {
                            let s = Setting {
                                data: body,
                                literal_length: sent.literal_length->Some_0,
                                offset: sent.offset->Some_0,
                                match_length: sent.match_length->Some_0,
                                literals,
                                window,
                                room,
                            };
                            match run(s, start(s, payload, d.repeats, d.out), count) {
                                Err(e) => Err(e),
                                Ok((out, repeats)) => Ok(Done { out, sent, repeats }),
                            }
                        },
                    }
                },
            }
        },
    }
}

/// Where a block's output goes and how far back it may reach.
pub struct Target {
    /// The frame's output, appended to. Its history starts where the frame
    /// did, which is what bounds how far a match may reach.
    pub out: Window,
    /// The declared window.
    pub window_size: u64,
}

impl Target {
    /// How long the frame's output may become.
    pub open spec fn room(&self) -> int {
        MAX_TOTAL - (self.out.all().len() - self.out.dictionary().len())
    }

    /// What was produced before the frame.
    pub open spec fn before(&self) -> Seq<u8> {
        self.out.all().take(self.out.all().len() - self.out.dictionary().len())
    }

    /// The window holds as much as a match may reach.
    pub open spec fn wf(&self) -> bool {
        &&& self.out.wf()
        &&& self.window_size <= self.out.kept()
        &&& self.out.all().len() <= MAX_TOTAL
        &&& self.out.dictionary().len() <= self.out.all().len()
    }

    /// The same stream with more output.
    pub open spec fn grown_from(&self, o: &Target) -> bool {
        &&& self.wf()
        &&& self.window_size == o.window_size
        &&& self.out.kept() == o.out.kept()
        &&& self.before() == o.before()
        &&& self.out.delivered() == o.out.delivered()
        &&& self.out.all().len() - self.out.dictionary().len() == o.out.all().len()
            - o.out.dictionary().len()
    }
}

fn take_table(
    mode: Mode,
    data: &[u8],
    offset: &mut usize,
    kept: &mut Option<Table>,
    default_counts: &[i32],
    default_log: u32,
    max_symbol: usize,
) -> (r: Result<()>)
    requires
        max_symbol <= 255,
        default_counts.len() <= 256,
        sound(seen(*old(kept))),
    ensures
        match table_at(
            mode.number(),
            data@,
            *old(offset) as nat,
            seen(*old(kept)),
            default_counts@,
            default_log as nat,
            max_symbol as nat,
        ) {
            Ok((t, at)) => r is Ok && *final(offset) == at && (*final(kept) matches Some(x) && x@
                == t) && t.valid(),
            Err(e) => r matches Err(f) && f == e,
        },
{
    match mode {
        Mode::Predefined => {
            match Table::from_counts(default_counts, default_log) {
                Err(e) => {
                    return Err(e);
                },
                Ok(t) => {
                    *kept = Some(t);
                },
            }
        },
        Mode::Rle => {
            if *offset >= data.len() {
                return Err(Error::Malformed);
            }
            let symbol: u8 = data[*offset];
            *offset = *offset + 1;
            *kept = Some(Table::single(symbol));
        },
        Mode::Compressed => {
            if *offset > data.len() {
                return Err(Error::Malformed);
            }
            let rest: &[u8] = &data[*offset..data.len()];
            assert(rest@ =~= data@.skip(*offset as int));
            match Table::parse(rest, fse::MAX_TABLE_LOG, max_symbol) {
                Err(e) => {
                    assert(data.len() <= usize::MAX);
                    return Err(e);
                },
                Ok((t, used)) => {
                    if used > rest.len() {
                        return Err(Error::Malformed);
                    }
                    *offset = *offset + used;
                    *kept = Some(t);
                },
            }
        },
        Mode::Repeat => {
            if kept.is_none() {
                return Err(Error::Malformed);
            }
        },
    }
    Ok(())
}

fn sequence_count(data: &[u8]) -> (r: Result<(usize, usize)>)
    ensures
        match counted(data@) {
            Ok((n, at)) => r matches Ok(x) && x.0 == n && x.1 == at && at <= data@.len(),
            Err(e) => r matches Err(f) && f == e,
        },
{
    if data.len() == 0 {
        return Err(Error::Malformed);
    }
    let first: usize = data[0] as usize;
    if first < 128 {
        return Ok((first, 1));
    }
    if first < 255 {
        if data.len() < 2 {
            return Err(Error::Malformed);
        }
        return Ok(((first - 128) * 256 + data[1] as usize, 2));
    }
    if data.len() < 3 {
        return Err(Error::Malformed);
    }
    Ok((data[1] as usize + data[2] as usize * 256 + 0x7F00, 3))
}

fn resolve_offset(raw: u64, literal_length: u64, repeats: &mut [u32; 3]) -> (r: Result<u32>)
    requires
        1 <= raw <= 0xffff_ffff,
    ensures
        match resolved(raw as nat, literal_length as nat, old(repeats)@) {
            Ok((d, s)) => r matches Ok(x) && x == d && final(repeats)@ == s && d >= 1,
            Err(e) => r matches Err(f) && f == e,
        },
{
    let r0: u32 = repeats[0];
    let r1: u32 = repeats[1];
    let r2: u32 = repeats[2];
    if raw > 3 {
        let distance: u32 = (raw - 3) as u32;
        *repeats = [distance, r0, r1];
        assert(repeats@ =~= seq![distance, r0, r1]);
        return Ok(distance);
    }
    let index: u64 = raw - 1 + if literal_length == 0 {
        1
    } else {
        0
    };
    let distance: u32 = if index == 0 {
        r0
    } else if index == 1 {
        r1
    } else if index == 2 {
        r2
    } else if r0 == 0 {
        0
    } else {
        r0 - 1
    };
    if distance == 0 {
        return Err(Error::Malformed);
    }
    if index == 1 {
        *repeats = [r1, r0, r2];
        assert(repeats@ =~= seq![r1, r0, r2]);
    } else if index >= 2 {
        *repeats = [distance, r0, r1];
        assert(repeats@ =~= seq![distance, r0, r1]);
    }
    Ok(distance)
}

struct Piece {
    literal_length: usize,
    distance: u32,
    match_length: u32,
}

fn emit(target: &mut Target, literals: &[u8], literal_pos: &mut usize, piece: &Piece, s: Ghost<
    Setting,
>) -> (r: Result<()>)
    requires
        old(target).wf(),
        s@.literals == literals@,
        s@.window == old(target).window_size,
        s@.room == old(target).room(),
        piece.distance >= 1,
    ensures
        match emitted(
            s@,
            old(target).out.dictionary(),
            *old(literal_pos) as nat,
            piece.literal_length as nat,
            piece.distance as nat,
            piece.match_length as nat,
        ) {
            Some(out) => r is Ok && final(target).out.dictionary() == out
                && final(target).grown_from(old(target)) && *final(literal_pos) == *old(literal_pos)
                + piece.literal_length,
            None => r == Err::<(), Error>(Error::Malformed),
        },
{
    if *literal_pos > literals.len() || piece.literal_length > literals.len() - *literal_pos {
        return Err(Error::Malformed);
    }
    let ghost o = *target;
    let end: usize = *literal_pos + piece.literal_length;
    let ghost with = o.out.dictionary() + literals@.subrange(*literal_pos as int, end as int);
    proof {
        lz::lemma_copied_len(with, piece.distance as int, piece.match_length as nat);
        o.out.lemma_reach();
    }
    let total: u64 = target.out.total();
    let room: u64 = MAX_TOTAL - total;
    if piece.literal_length as u64 > room || piece.match_length as u64 > room
        - piece.literal_length as u64 {
        return Err(Error::Malformed);
    }
    target.out.extend(&literals[*literal_pos..end]);
    *literal_pos = end;
    proof {
        target.out.lemma_reach();
    }
    let produced: usize = target.out.history();
    if piece.distance as usize > produced {
        return Err(Error::Malformed);
    }
    if piece.distance as u64 > target.window_size {
        return Err(Error::Malformed);
    }
    let ghost mid = target.out.all();
    match target.out.copy_match(piece.distance, piece.match_length) {
        Err(e) => Err(e),
        Ok(_) => {
            proof {
                let d = piece.distance as int;
                let n = piece.match_length as nat;
                lz::lemma_copied_len(mid, d, n);
                lz::lemma_copied_prefix(mid, d, n);
                let k = o.out.all().len() - o.out.dictionary().len();
                assert(target.out.all().take(k) =~= mid.take(k)) by {
                    assert(target.out.all().take(mid.len() as int) == mid);
                    assert(target.out.all().take(k) =~= target.out.all().take(
                        mid.len() as int,
                    ).take(k));
                }
                assert(mid.take(k) =~= o.out.all().take(k));
            }
            Ok(())
        },
    }
}

proof fn lemma_extras()
    ensures
        forall|i: int| 0 <= i < 53 ==> #[trigger] MATCH_LENGTH_EXTRA@[i] <= 16,
        forall|i: int| 0 <= i < 36 ==> #[trigger] LITERAL_LENGTH_EXTRA@[i] <= 16,
        forall|i: int| 0 <= i < 53 ==> 3 <= #[trigger] MATCH_LENGTH_BASE@[i] <= 65539,
        forall|i: int| 0 <= i < 36 ==> #[trigger] LITERAL_LENGTH_BASE@[i] <= 65536,
{
}

/// One sequence with the given codes.
#[verifier::spinoff_prover]
fn sequence(
    codes: (u8, u8, u8),
    bits: &mut BackwardBits<'_>,
    target: &mut Target,
    literals: &[u8],
    literal_pos: &mut usize,
    repeats: &mut [u32; 3],
    s: Ghost<Setting>,
    p: Ghost<Place>,
) -> (r: Result<()>)
    requires
        old(target).wf(),
        old(bits).wf(),
        s@.data == old(bits).data(),
        s@.literals == literals@,
        s@.window == old(target).window_size,
        s@.room == old(target).room(),
        p@.back == old(bits).back(),
        p@.used == *old(literal_pos),
        p@.repeats == old(repeats)@,
        p@.out == old(target).out.dictionary(),
    ensures
        match coded_sequence(s@, p@, codes.0 as nat, codes.1 as nat, codes.2 as nat) {
            Ok(q) => r is Ok && final(target).grown_from(old(target)) && final(bits).wf()
                && final(bits).data() == old(bits).data() && q == (Place {
                back: final(bits).back(),
                used: *final(literal_pos) as nat,
                repeats: final(repeats)@,
                out: final(target).out.dictionary(),
                ..p@
            }),
            Err(e) => r matches Err(f) && f == e,
        },
{
    reveal(coded_sequence);
    let (offset_code, match_code, literal_code) = codes;
    if offset_code > 31 || match_code >= 53 || literal_code >= 36 {
        return Err(Error::Malformed);
    }
    proof {
        lemma_extras();
        lemma2_to64();
        if offset_code < 31 {
            lemma_pow2_strictly_increases(offset_code as nat, 31);
        }
        lemma_pow2_pos(offset_code as nat);
        let mx = MATCH_LENGTH_EXTRA@[match_code as int];
        let lx = LITERAL_LENGTH_EXTRA@[literal_code as int];
        if mx < 16 {
            lemma_pow2_strictly_increases(mx as nat, 16);
        }
        if lx < 16 {
            lemma_pow2_strictly_increases(lx as nat, 16);
        }
    }
    let raw: u64 = power_of_two(offset_code as u32) + bits.bits(offset_code as u32);
    let match_length: u64 = MATCH_LENGTH_BASE[match_code as usize] as u64 + bits.bits(
        MATCH_LENGTH_EXTRA[match_code as usize] as u32,
    );
    let literal_length: u64 = LITERAL_LENGTH_BASE[literal_code as usize] as u64 + bits.bits(
        LITERAL_LENGTH_EXTRA[literal_code as usize] as u32,
    );
    let distance: u32 = match resolve_offset(raw, literal_length, repeats) {
        Err(e) => {
            return Err(e);
        },
        Ok(d) => d,
    };
    let piece: Piece = Piece {
        literal_length: literal_length as usize,
        distance,
        match_length: match_length as u32,
    };
    emit(target, literals, literal_pos, &piece, s)
}

fn finish(target: &mut Target, rest: &[u8]) -> (r: Result<()>)
    requires
        old(target).wf(),
    ensures
        if old(target).out.dictionary().len() + rest@.len() > old(target).room() {
            r == Err::<(), Error>(Error::Malformed)
        } else {
            r is Ok && final(target).grown_from(old(target)) && final(target).out.dictionary()
                == old(target).out.dictionary() + rest@
        },
{
    proof {
        target.out.lemma_reach();
    }
    let ghost o = *target;
    let total: u64 = target.out.total();
    if rest.len() as u64 > MAX_TOTAL - total {
        return Err(Error::Malformed);
    }
    target.out.extend(rest);
    assert(target.before() =~= o.before());
    Ok(())
}

/// Decode a sequences section: literals and matches go to `target`.
#[verifier::rlimit(60)]
#[verifier::spinoff_prover]
pub fn execute(
    data: &[u8],
    literals: &[u8],
    target: &mut Target,
    tables: &mut Tables,
    repeats: &mut [u32; 3],
) -> (r: Result<()>)
    requires
        old(target).wf(),
        old(tables)@.valid(),
    ensures
        match executed(
            data@,
            literals@,
            old(target).window_size as nat,
            old(target).room() as nat,
            (Done {
                out: old(target).out.dictionary(),
                sent: old(tables)@,
                repeats: old(repeats)@,
            }),
        ) {
            Ok(d) => r is Ok && final(target).grown_from(old(target))
                && final(target).out.dictionary() == d.out && final(tables)@ == d.sent
                && final(repeats)@
                == d.repeats && final(tables)@.valid(),
            Err(e) => r matches Err(f) && f == e,
        },
{
    let ghost whole = executed(
        data@,
        literals@,
        target.window_size as nat,
        target.room() as nat,
        Done { out: target.out.dictionary(), sent: tables@, repeats: repeats@ },
    );
    let (count, at) = match sequence_count(data) {
        Err(e) => {
            return Err(e);
        },
        Ok(v) => v,
    };
    if count == 0 {
        return finish(target, literals);
    }
    if at >= data.len() {
        return Err(Error::Malformed);
    }
    let modes: u8 = data[at];
    let mut offset: usize = at + 1;
    if modes % 4 != 0 {
        return Err(Error::Malformed);
    }
    let literal_mode: Mode = Mode::from_bits(modes / 64);
    let offset_mode: Mode = Mode::from_bits(modes / 16 % 4);
    let match_mode: Mode = Mode::from_bits(modes / 4 % 4);
    if let Err(e) = take_table(
        literal_mode,
        data,
        &mut offset,
        &mut tables.literal_length,
        &DEFAULT_LITERAL_LENGTH,
        DEFAULT_LITERAL_LENGTH_LOG,
        MAX_LITERAL_LENGTH_SYMBOL,
    ) {
        return Err(e);
    }
    if let Err(e) = take_table(
        offset_mode,
        data,
        &mut offset,
        &mut tables.offset,
        &DEFAULT_OFFSET,
        DEFAULT_OFFSET_LOG,
        MAX_OFFSET_SYMBOL,
    ) {
        return Err(e);
    }
    if let Err(e) = take_table(
        match_mode,
        data,
        &mut offset,
        &mut tables.match_length,
        &DEFAULT_MATCH_LENGTH,
        DEFAULT_MATCH_LENGTH_LOG,
        MAX_MATCH_LENGTH_SYMBOL,
    ) {
        return Err(e);
    }
    assert(tables_at(data@, at as nat, old(tables)@) == Ok::<(Sent, nat), Error>(
        (tables@, offset as nat),
    ));
    if offset > data.len() {
        return Err(Error::Malformed);
    }
    let body: &[u8] = &data[offset..data.len()];
    assert(body@ =~= data@.skip(offset as int));
    let mut bits: BackwardBits<'_> = match BackwardBits::new(body) {
        Err(e) => {
            return Err(e);
        },
        Ok(v) => v,
    };
    let (literal_table, offset_table, match_table) = match (
        &tables.literal_length,
        &tables.offset,
        &tables.match_length,
    ) {
        (Some(l), Some(o), Some(m)) => (l, o, m),
        _ => {
            return Err(Error::Malformed);
        },
    };
    let ghost s = Setting {
        data: body@,
        literal_length: literal_table@,
        offset: offset_table@,
        match_length: match_table@,
        literals: literals@,
        window: target.window_size as nat,
        room: target.room() as nat,
    };
    proof {
        target.out.lemma_reach();
    }
    let mut literal_state: State = State::new(literal_table, &mut bits);
    let mut offset_state: State = State::new(offset_table, &mut bits);
    let mut match_state: State = State::new(match_table, &mut bits);
    let mut literal_pos: usize = 0;
    let mut index: usize = 0;
    let ghost begun = start(s, stream::payload(body@)->Some_0, repeats@, target.out.dictionary());
    let ghost result = run(s, begun, count as nat);
    proof {
        assert(whole == match result {
            Err(e) => Err::<Done, Error>(e),
            Ok((out, reps)) => Ok(Done { out, sent: tables@, repeats: reps }),
        });
    }
    while index < count
        invariant
            index <= count,
            target.grown_from(old(target)),
            old(target).wf(),
            bits.wf(),
            bits.data() == body@,
            s == (Setting {
                data: body@,
                literal_length: literal_table@,
                offset: offset_table@,
                match_length: match_table@,
                literals: literals@,
                window: old(target).window_size as nat,
                room: old(target).room() as nat,
            }),
            target.room() == old(target).room() >= 0,
            literal_table@.valid(),
            offset_table@.valid(),
            match_table@.valid(),
            literal_state.at() < literal_table@.entries.len(),
            offset_state.at() < offset_table@.entries.len(),
            match_state.at() < match_table@.entries.len(),
            whole == executed(
                data@,
                literals@,
                old(target).window_size as nat,
                old(target).room() as nat,
                Done {
                    out: old(target).out.dictionary(),
                    sent: old(tables)@,
                    repeats: old(repeats)@,
                },
            ),
            whole == match result {
                Err(e) => Err::<Done, Error>(e),
                Ok((out, reps)) => Ok(Done { out, sent: tables@, repeats: reps }),
            },
            tables@.valid(),
            literal_pos <= literals.len(),
            result == run(
                s,
                Place {
                    literal_length: literal_state.at(),
                    offset: offset_state.at(),
                    match_length: match_state.at(),
                    back: bits.back(),
                    used: literal_pos as nat,
                    repeats: repeats@,
                    out: target.out.dictionary(),
                },
                (count - index) as nat,
            ),
        decreases count - index,
    {
        let offset_code: u8 = offset_state.symbol(offset_table);
        let match_code: u8 = match_state.symbol(match_table);
        let literal_code: u8 = literal_state.symbol(literal_table);
        let ghost p = Place {
            literal_length: literal_state.at(),
            offset: offset_state.at(),
            match_length: match_state.at(),
            back: bits.back(),
            used: literal_pos as nat,
            repeats: repeats@,
            out: target.out.dictionary(),
        };
        proof {
            lemma_used_bound(
                s,
                p,
                offset_code as nat,
                match_code as nat,
                literal_code as nat,
            );
        }
        if let Err(e) = sequence(
            (offset_code, match_code, literal_code),
            &mut bits,
            target,
            literals,
            &mut literal_pos,
            repeats,
            Ghost(s),
            Ghost(p),
        ) {
            return Err(e);
        }
        if index + 1 < count {
            literal_state.advance(literal_table, &mut bits);
            match_state.advance(match_table, &mut bits);
            offset_state.advance(offset_table, &mut bits);
        }
        index = index + 1;
    }
    let rest: &[u8] = &literals[literal_pos..literals.len()];
    assert(rest@ =~= literals@.skip(literal_pos as int));
    finish(target, rest)
}

/// No more literals are used than there are.
proof fn lemma_used_bound(
    s: Setting,
    p: Place,
    offset_code: nat,
    match_code: nat,
    literal_code: nat,
)
    ensures
        coded_sequence(s, p, offset_code, match_code, literal_code) matches Ok(q) ==> q.used
            <= s.literals.len(),
{
    reveal(coded_sequence);
}

} // verus!
