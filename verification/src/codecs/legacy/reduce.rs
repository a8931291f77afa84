//! Reduce: likely followers of each byte, then runs.
use crate::codecs::legacy::bits;
use crate::codecs::legacy::bits::BitReader;
use crate::utils::error::{Error, Result};
use vstd::arithmetic::power2::*;
use vstd::prelude::*;

verus! {

const ESCAPE: u8 = 0x90;

/// How many bits name one of `n` followers.
pub open spec fn index_width(n: nat) -> nat {
    if n == 0 {
        0
    } else if n <= 2 {
        1
    } else if n <= 4 {
        2
    } else if n <= 8 {
        3
    } else if n <= 16 {
        4
    } else {
        5
    }
}

/// `n` bytes from bit `p` on.
pub open spec fn bytes_at(data: Seq<u8>, p: int, n: nat) -> Option<(Seq<u8>, int)>
    decreases n,
{
    if n == 0 {
        Some((Seq::empty(), p))
    } else {
        match bytes_at(data, p, (n - 1) as nat) {
            None => None,
            Some((s, q)) => match bits::field(data, q, 8) {
                None => None,
                Some((b, r)) => Some((s.push(b as u8), r)),
            },
        }
    }
}

/// The followers of a byte.
pub open spec fn set_at(data: Seq<u8>, p: int) -> Option<(Seq<u8>, int)> {
    match bits::field(data, p, 6) {
        None => None,
        Some((n, q)) => if n > 32 {
            None
        } else {
            bytes_at(data, q, n)
        },
    }
}

/// The followers of the first `n` bytes, those of the last one first.
pub open spec fn sets_at(data: Seq<u8>, p: int, n: nat) -> Option<(Seq<Seq<u8>>, int)>
    decreases n,
{
    if n == 0 {
        Some((Seq::empty(), p))
    } else {
        match set_at(data, p) {
            None => None,
            Some((s, q)) => match sets_at(data, q, (n - 1) as nat) {
                None => None,
                Some((rest, r)) => Some((rest.push(s), r)),
            },
        }
    }
}

/// What the next bits say.
pub enum Follower {
    Byte(u8, int),
    Stop,
    Bad,
}

/// The next byte after one with these followers.
pub open spec fn follower(data: Seq<u8>, p: int, set: Seq<u8>) -> Follower {
    if set.len() == 0 {
        match bits::field(data, p, 8) {
            None => Follower::Stop,
            Some((b, q)) => Follower::Byte(b as u8, q),
        }
    } else {
        match bits::field(data, p, 1) {
            None => Follower::Stop,
            Some((flag, q)) => if flag == 1 {
                match bits::field(data, q, 8) {
                    None => Follower::Stop,
                    Some((b, r)) => Follower::Byte(b as u8, r),
                }
            } else {
                match bits::field(data, q, index_width(set.len())) {
                    None => Follower::Stop,
                    Some((i, r)) => if i < set.len() {
                        Follower::Byte(set[i as int], r)
                    } else {
                        Follower::Bad
                    },
                }
            },
        }
    }
}

/// The bytes from bit `p` on, after those of `out`.
pub open spec fn followed(data: Seq<u8>, p: int, sets: Seq<Seq<u8>>, out: Seq<u8>) -> Option<
    Seq<u8>,
>
    decreases 8 * data.len() - p,
{
    let last = if out.len() == 0 {
        0
    } else {
        out.last() as int
    };
    match follower(data, p, sets[last]) {
        Follower::Stop => Some(out),
        Follower::Bad => None,
        Follower::Byte(b, q) => if p < q <= 8 * data.len() {
            followed(data, q, sets, out.push(b))
        } else {
            None
        },
    }
}

/// A copy from `dist` back; before the start there are zeros.
pub open spec fn copied(out: Seq<u8>, dist: int, len: nat) -> Seq<u8>
    decreases len,
{
    if len == 0 {
        out
    } else {
        copied(
            out.push(
                if dist > out.len() {
                    0
                } else {
                    out[out.len() - dist]
                },
            ),
            dist,
            (len - 1) as nat,
        )
    }
}

/// What the bytes from `i` on stand for, after `out`. `unit` splits a control
/// byte into a length and the high bits of a distance.
pub open spec fn paired(data: Seq<u8>, i: int, unit: int, out: Seq<u8>) -> Seq<u8>
    decreases data.len() - i,
{
    if i < 0 || i >= data.len() {
        out
    } else if data[i] != 0x90 {
        paired(data, i + 1, unit, out.push(data[i]))
    } else if i + 1 >= data.len() {
        out
    } else if data[i + 1] == 0 {
        paired(data, i + 2, unit, out.push(0x90))
    } else {
        let control = data[i + 1] as int;
        let long = control % unit == unit - 1;
        let at = if long {
            i + 3
        } else {
            i + 2
        };
        if at >= data.len() || long && i + 2 >= data.len() {
            out
        } else {
            let len = control % unit + if long {
                data[i + 2] as int
            } else {
                0
            } + 3;
            let dist = 256 * (control / unit) + data[at] + 1;
            paired(data, at + 1, unit, copied(out, dist, len as nat))
        }
    }
}

/// How a control byte is split with each method.
pub open spec fn unit_of(method: int) -> int {
    if method == 2 {
        128
    } else if method == 3 {
        64
    } else if method == 4 {
        32
    } else {
        16
    }
}

/// What a reduced entry holds.
pub open spec fn decoded(data: Seq<u8>, method: int) -> Option<Seq<u8>> {
    if method < 2 || method > 5 {
        None
    } else {
        match sets_at(data, 0, 256) {
            None => None,
            Some((sets, p)) => match followed(data, p, sets, Seq::empty()) {
                None => None,
                Some(mid) => Some(paired(mid, 0, unit_of(method), Seq::empty())),
            },
        }
    }
}

fn index_bits(set_size: usize) -> (r: u32)
    ensures
        r == index_width(set_size as nat),
        r <= 5,
{
    if set_size == 0 {
        0
    } else if set_size <= 2 {
        1
    } else if set_size <= 4 {
        2
    } else if set_size <= 8 {
        3
    } else if set_size <= 16 {
        4
    } else {
        5
    }
}

fn read_set(source: &mut BitReader<'_>) -> (r: Result<Vec<u8>>)
    requires
        old(source).wf(),
    ensures
        final(source).wf(),
        final(source).data() == old(source).data(),
        match set_at(old(source).data(), old(source).at()) {
            Some((s, q)) => r matches Ok(v) && v@ == s && final(source).at() == q,
            None => r matches Err(e) && e == Error::Malformed,
        },
{
    let count: u32 = match source.need(6, "a reduce follower set size") {
        Ok(n) => n,
        Err(e) => {
            return Err(e);
        },
    };
    if count > 32 {
        return Err(Error::Malformed);
    }
    let ghost start = source.at();
    let mut set: Vec<u8> = Vec::with_capacity(count as usize);
    let mut i: u32 = 0;
    while i < count
        invariant
            i <= count <= 32,
            source.wf(),
            source.data() == old(source).data(),
            set_at(old(source).data(), old(source).at()) == bytes_at(
                source.data(),
                start,
                count as nat,
            ),
            bytes_at(source.data(), start, i as nat) == Some((set@, source.at())),
        decreases count - i,
    {
        proof {
            lemma2_to64();
        }
        match source.need(8, "a reduce follower") {
            Ok(b) => {
                set.push(b as u8);
            },
            Err(e) => {
                proof {
                    lemma_bytes_short(source.data(), start, (i + 1) as nat, count as nat);
                }
                return Err(e);
            },
        }
        i = i + 1;
    }
    Ok(set)
}

proof fn lemma_bytes_short(data: Seq<u8>, p: int, a: nat, b: nat)
    requires
        a <= b,
        bytes_at(data, p, a) is None,
    ensures
        bytes_at(data, p, b) is None,
    decreases b,
{
    if a < b {
        lemma_bytes_short(data, p, a, (b - 1) as nat);
    }
}

spec fn views(v: Seq<Vec<u8>>) -> Seq<Seq<u8>> {
    Seq::new(v.len(), |i: int| v[i]@)
}

fn expand_followers(data: &[u8]) -> (r: Result<Vec<u8>>)
    ensures
        match sets_at(data@, 0, 256) {
            None => r matches Err(e) && e == Error::Malformed,
            Some((sets, p)) => match followed(data@, p, sets, Seq::empty()) {
                None => r matches Err(e) && e == Error::Malformed,
                Some(mid) => r matches Ok(v) && v@ == mid,
            },
        },
{
    let mut source: BitReader = BitReader::new(data);
    let mut backwards: Vec<Vec<u8>> = Vec::with_capacity(256);
    let ghost all = sets_at(data@, 0, 256);
    let mut value: usize = 256;
    while value > 0
        invariant
            value <= 256,
            source.wf(),
            source.data() == data@,
            all == sets_at(data@, 0, 256),
            backwards@.len() == 256 - value,
            all == match sets_at(data@, source.at(), value as nat) {
                Some((rest, q)) => Some((rest + turned(views(backwards@)), q)),
                None => None,
            },
        decreases value,
    {
        match read_set(&mut source) {
            Ok(set) => {
                let ghost before = views(backwards@);
                let ghost s = set@;
                backwards.push(set);
                proof {
                    assert(views(backwards@) =~= before.push(s));
                    assert(turned(before.push(s)) =~= seq![s] + turned(before));
                    if let Some((rest, q)) = sets_at(data@, source.at(), (value - 1) as nat) {
                        assert(rest.push(s) + turned(before) =~= rest + turned(before.push(s)));
                    }
                }
            },
            Err(e) => {
                return Err(e);
            },
        }
        value = value - 1;
    }
    let ghost sets = turned(views(backwards@));
    assert(Seq::<Seq<u8>>::empty() + sets =~= sets);
    let mut out: Vec<u8> = Vec::new();
    let mut last: u8 = 0;
    loop
        invariant
            source.wf(),
            source.data() == data@,
            backwards@.len() == 256,
            sets == turned(views(backwards@)),
            last == if out@.len() == 0 {
                0
            } else {
                out@.last()
            },
            all == sets_at(data@, 0, 256),
            all matches Some((x, p)) && x == sets && followed(data@, p, sets, Seq::empty())
                == followed(data@, source.at(), sets, out@),
        decreases 8 * data@.len() - source.at(),
    {
        let set: &Vec<u8> = &backwards[255 - last as usize];
        proof {
            lemma2_to64();
            source.lemma_at();
            assert(sets[last as int] == set@);
        }
        let mut byte: u8 = 0;
        if set.len() == 0 {
            match source.bits(8) {
                Some(b) => {
                    byte = b as u8;
                },
                None => {
                    return Ok(out);
                },
            }
        } else {
            match source.bit() {
                None => {
                    return Ok(out);
                },
                Some(flag) => {
                    if flag == 1 {
                        match source.bits(8) {
                            Some(b) => {
                                byte = b as u8;
                            },
                            None => {
                                return Ok(out);
                            },
                        }
                    } else {
                        let width: u32 = index_bits(set.len());
                        match source.bits(width) {
                            Some(i) => {
                                if i as usize >= set.len() {
                                    return Err(Error::Malformed);
                                }
                                byte = set[i as usize];
                            },
                            None => {
                                return Ok(out);
                            },
                        }
                    }
                },
            }
        }
        proof {
            source.lemma_at();
        }
        out.push(byte);
        last = byte;
    }
}

spec fn turned(s: Seq<Seq<u8>>) -> Seq<Seq<u8>> {
    Seq::new(s.len(), |i: int| s[s.len() - 1 - i])
}

fn copy_back(out: &mut Vec<u8>, distance: usize, length: usize)
    requires
        distance >= 1,
    ensures
        final(out)@ == copied(old(out)@, distance as int, length as nat),
{
    let mut left: usize = length;
    let ghost target = copied(out@, distance as int, length as nat);
    while left > 0
        invariant
            distance >= 1,
            target == copied(out@, distance as int, left as nat),
        decreases left,
    {
        let byte: u8 = if distance > out.len() {
            0
        } else {
            out[out.len() - distance]
        };
        out.push(byte);
        left = left - 1;
    }
}

fn expand_pairs(data: &[u8], unit: usize, expected: usize) -> (r: Vec<u8>)
    requires
        unit == 128 || unit == 64 || unit == 32 || unit == 16,
    ensures
        r@ == paired(data@, 0, unit as int, Seq::empty()),
{
    let mut out: Vec<u8> = Vec::new();
    let mut i: usize = 0;
    let ghost target = paired(data@, 0, unit as int, Seq::empty());
    while i < data.len()
        invariant
            i <= data.len(),
            unit == 128 || unit == 64 || unit == 32 || unit == 16,
            target == paired(data@, i as int, unit as int, out@),
            target == paired(data@, 0, unit as int, Seq::empty()),
        decreases data@.len() - i,
    {
        let byte: u8 = data[i];
        i = i + 1;
        if byte != ESCAPE {
            out.push(byte);
            continue ;
        }
        if i >= data.len() {
            return out;
        }
        let control: usize = data[i] as usize;
        i = i + 1;
        if control == 0 {
            out.push(ESCAPE);
            continue ;
        }
        let mut length: usize = control % unit;
        if length == unit - 1 {
            if i >= data.len() {
                return out;
            }
            length = length + data[i] as usize;
            i = i + 1;
        }
        length = length + 3;
        if i >= data.len() {
            return out;
        }
        let low: usize = data[i] as usize;
        i = i + 1;
        let high: usize = control / unit;
        assert(high <= 15) by (nonlinear_arith)
            requires
                high == control / unit,
                control <= 255,
                unit >= 16,
        ;
        copy_back(&mut out, 256 * high + low + 1, length);
    }
    out
}

/// The whole of a reduced entry, decoded.
pub fn decompress(data: &[u8], method: u16, size_hint: usize) -> (r: Result<Vec<u8>>)
    ensures
        match decoded(data@, method as int) {
            Some(all) => r matches Ok(out) && out@ == all,
            None => r matches Err(e) && e == Error::Malformed,
        },
{
    if method < 2 || method > 5 {
        return Err(Error::Malformed);
    }
    let unit: usize = if method == 2 {
        128
    } else if method == 3 {
        64
    } else if method == 4 {
        32
    } else {
        16
    };
    match expand_followers(data) {
        Err(e) => Err(e),
        Ok(intermediate) => Ok(expand_pairs(intermediate.as_slice(), unit, size_hint)),
    }
}

} // verus!
