//! Shrink: LZW whose table is cleared in part.
use crate::codecs::legacy::bits;
use crate::codecs::legacy::bits::BitReader;
use crate::utils::error::{Error, Result};
use vstd::arithmetic::power2::*;
use vstd::prelude::*;

verus! {

const MIN_CODE_BITS: u32 = 9;

const MAX_CODE_BITS: u32 = 13;

const TABLE_SIZE: usize = 8192;

const ESCAPE: u16 = 256;

const FIRST_FREE: usize = 257;

/// What stands for a free place.
pub const FREE: u16 = 0xffff;

/// What stands for the parent of a literal.
pub const ROOT: u16 = 0xfffe;

/// The codes that are known: each one's parent and last byte, and where to
/// look for a free place.
#[verifier::ext_equal]
pub struct Codes {
    pub parent: Seq<u16>,
    pub value: Seq<u8>,
    pub next: int,
}

/// The codes at the start: the literals.
pub open spec fn start_codes() -> Codes {
    Codes {
        parent: Seq::new(
            8192,
            |i: int|
                if i <= 256 {
                    ROOT
                } else {
                    FREE
                },
        ),
        value: Seq::new(
            8192,
            |i: int|
                if i < 256 {
                    i as u8
                } else {
                    0
                },
        ),
        next: 257,
    }
}

/// The bytes of a code, found in at most `n` steps.
pub open spec fn expanded(c: Codes, code: int, n: nat) -> Option<Seq<u8>>
    decreases n,
{
    if n == 0 || c.parent[code] == FREE {
        None
    } else if c.parent[code] == ROOT {
        Some(seq![c.value[code]])
    } else {
        match expanded(c, c.parent[code] as int, (n - 1) as nat) {
            None => None,
            Some(s) => Some(s.push(c.value[code])),
        }
    }
}

/// The first free place from `at` on.
pub open spec fn free_from(parent: Seq<u16>, at: int) -> int
    decreases 8192 - at,
{
    if at < 8192 && parent[at] != FREE {
        free_from(parent, at + 1)
    } else {
        at
    }
}

/// The codes with one more, if there is room.
pub open spec fn allocated(c: Codes, parent: u16, value: u8) -> Codes {
    let at = free_from(c.parent, c.next);
    if at < 8192 {
        Codes {
            parent: c.parent.update(at, parent),
            value: c.value.update(at, value),
            next: at + 1,
        }
    } else {
        Codes { next: at, ..c }
    }
}

/// Whether a code is the parent of another.
pub open spec fn is_prefix(parent: Seq<u16>, code: int) -> bool {
    exists|k: int| 257 <= k < 8192 && #[trigger] parent[k] == code
}

/// The codes without those that are nobody's parent.
pub open spec fn cleared(c: Codes) -> Codes {
    Codes {
        parent: Seq::new(
            8192,
            |i: int|
                if i >= 257 && !is_prefix(c.parent, i) {
                    FREE
                } else {
                    c.parent[i]
                },
        ),
        next: 257,
        ..c
    }
}

/// Where decoding stands.
pub struct Shrunk {
    pub codes: Codes,
    pub width: nat,
    pub previous: u16,
    pub p: int,
    pub out: Seq<u8>,
}

/// What the next code does.
pub enum Outcome {
    Next(Shrunk),
    Stop,
    Bad,
}

/// The bytes a code stands for, or those of the one before it and its first
/// byte again.
pub open spec fn piece(c: Codes, previous: u16, code: u16) -> Option<Seq<u8>> {
    if c.parent[code as int] == FREE {
        match expanded(c, previous as int, 8193) {
            None => None,
            Some(s) => Some(s.push(s[0])),
        }
    } else {
        expanded(c, code as int, 8193)
    }
}

/// What the next code does.
pub open spec fn step(data: Seq<u8>, s: Shrunk) -> Outcome {
    match bits::field(data, s.p, s.width) {
        None => Outcome::Stop,
        Some((code, q)) => if code == 256 {
            match bits::field(data, q, s.width) {
                None => Outcome::Stop,
                Some((what, r)) => if what == 1 {
                    if s.width + 1 > 13 {
                        Outcome::Bad
                    } else {
                        Outcome::Next(Shrunk { width: s.width + 1, p: r, ..s })
                    }
                } else if what == 2 {
                    Outcome::Next(Shrunk { codes: cleared(s.codes), p: r, ..s })
                } else {
                    Outcome::Bad
                },
            }
        } else {
            match piece(s.codes, s.previous, code as u16) {
                None => Outcome::Bad,
                Some(bytes) => Outcome::Next(
                    Shrunk {
                        codes: allocated(s.codes, s.previous, bytes[0]),
                        previous: code as u16,
                        p: q,
                        out: s.out + bytes,
                        ..s
                    },
                ),
            }
        },
    }
}

/// Everything from here on.
pub open spec fn run(data: Seq<u8>, s: Shrunk) -> Option<Seq<u8>>
    decreases 8 * data.len() - s.p,
{
    match step(data, s) {
        Outcome::Stop => Some(s.out),
        Outcome::Bad => None,
        Outcome::Next(t) => if s.p < t.p <= 8 * data.len() {
            run(data, t)
        } else {
            None
        },
    }
}

/// What a shrunk entry holds.
pub open spec fn decoded(data: Seq<u8>) -> Option<Seq<u8>> {
    match bits::field(data, 0, 9) {
        None => Some(Seq::empty()),
        Some((first, p)) => if first >= 256 {
            None
        } else {
            run(
                data,
                Shrunk {
                    codes: start_codes(),
                    width: 9,
                    previous: first as u16,
                    p,
                    out: seq![first as u8],
                },
            )
        },
    }
}

proof fn lemma_expanded_some(c: Codes, code: int, n: nat)
    ensures
        expanded(c, code, n) matches Some(s) ==> s.len() > 0,
    decreases n,
{
    if n > 0 && c.parent[code] != FREE && c.parent[code] != ROOT {
        lemma_expanded_some(c, c.parent[code] as int, (n - 1) as nat);
    }
}

struct Table {
    parent: Vec<u16>,
    value: Vec<u8>,
    next: usize,
}

impl Table {
    spec fn codes(&self) -> Codes {
        Codes { parent: self.parent@, value: self.value@, next: self.next as int }
    }

    spec fn wf(&self) -> bool {
        &&& self.parent@.len() == TABLE_SIZE
        &&& self.value@.len() == TABLE_SIZE
        &&& self.next <= TABLE_SIZE
        &&& forall|i: int|
            0 <= i < TABLE_SIZE ==> #[trigger] self.parent@[i] < TABLE_SIZE || self.parent@[i]
                >= ROOT
    }

    fn new() -> (r: Self)
        ensures
            r.wf(),
            r.codes() == start_codes(),
    {
        let mut parent: Vec<u16> = vec![FREE; 8192];
        let mut value: Vec<u8> = vec![0u8; 8192];
        let mut code: usize = 0;
        while code < 257
            invariant
                code <= 257,
                parent@.len() == 8192,
                value@.len() == 8192,
                forall|i: int|
                    0 <= i < 8192 ==> #[trigger] parent@[i] == if i < code {
                        ROOT
                    } else {
                        FREE
                    },
                forall|i: int|
                    0 <= i < 8192 ==> #[trigger] value@[i] == if i < code && i < 256 {
                        i as u8
                    } else {
                        0
                    },
            decreases 257 - code,
        {
            parent.set(code, ROOT);
            if code < 256 {
                value.set(code, code as u8);
            }
            code = code + 1;
        }
        let r: Table = Table { parent, value, next: FIRST_FREE };
        assert(r.parent@ =~= start_codes().parent);
        assert(r.value@ =~= start_codes().value);
        r
    }

    fn is_free(&self, code: u16) -> (r: bool)
        requires
            self.wf(),
            code < TABLE_SIZE,
        ensures
            r == (self.codes().parent[code as int] == FREE),
    {
        self.parent[code as usize] == FREE
    }

    fn allocate(&mut self, parent: u16, value: u8)
        requires
            old(self).wf(),
            parent < TABLE_SIZE,
        ensures
            final(self).wf(),
            final(self).codes() == allocated(old(self).codes(), parent, value),
    {
        let ghost target = free_from(self.parent@, self.next as int);
        while self.next < TABLE_SIZE && self.parent[self.next] != FREE
            invariant
                self.wf(),
                self.parent@ == old(self).parent@,
                self.value@ == old(self).value@,
                target == free_from(self.parent@, self.next as int),
            decreases TABLE_SIZE - self.next,
        {
            self.next = self.next + 1;
        }
        if self.next < TABLE_SIZE {
            self.parent.set(self.next, parent);
            self.value.set(self.next, value);
            self.next = self.next + 1;
        }
    }

    fn partial_clear(&mut self)
        requires
            old(self).wf(),
        ensures
            final(self).wf(),
            final(self).codes() == cleared(old(self).codes()),
    {
        let mut used: Vec<bool> = vec![false; 8192];
        let ghost before = self.parent@;
        let mut code: usize = FIRST_FREE;
        while code < TABLE_SIZE
            invariant
                257 <= code <= TABLE_SIZE,
                self.wf(),
                self.parent@ == before,
                self.value@ == old(self).value@,
                used@.len() == TABLE_SIZE,
                forall|i: int|
                    0 <= i < TABLE_SIZE ==> (#[trigger] used@[i] <==> exists|k: int|
                        257 <= k < code && #[trigger] before[k] == i),
            decreases TABLE_SIZE - code,
        {
            let ghost was = used@;
            let parent: u16 = self.parent[code];
            if parent != FREE && parent != ROOT {
                used.set(parent as usize, true);
            }
            assert forall|i: int| 0 <= i < TABLE_SIZE implies (#[trigger] used@[i] <==> exists|
                k: int,
            |
                257 <= k < code + 1 && #[trigger] before[k] == i) by {
                if used@[i] {
                    if was[i] {
                        let k = choose|k: int| 257 <= k < code && #[trigger] before[k] == i;
                        assert(before[k] == i);
                    } else {
                        assert(before[code as int] == i);
                    }
                }
            }
            code = code + 1;
        }
        let mut code: usize = FIRST_FREE;
        while code < TABLE_SIZE
            invariant
                257 <= code <= TABLE_SIZE,
                self.wf(),
                self.value@ == old(self).value@,
                used@.len() == TABLE_SIZE,
                before.len() == TABLE_SIZE,
                forall|i: int|
                    0 <= i < TABLE_SIZE ==> (#[trigger] used@[i] <==> is_prefix(before, i)),
                forall|i: int|
                    0 <= i < TABLE_SIZE ==> #[trigger] self.parent@[i] == if 257 <= i < code
                        && !is_prefix(before, i) {
                        FREE
                    } else {
                        before[i]
                    },
            decreases TABLE_SIZE - code,
        {
            if !used[code] {
                self.parent.set(code, FREE);
            }
            code = code + 1;
        }
        self.next = FIRST_FREE;
        assert(self.codes() =~= cleared(old(self).codes()));
    }

    /// The bytes of a code after those of `out`, and the first of them.
    fn expand(&self, code: u16, out: &mut Vec<u8>) -> (r: Result<u8>)
        requires
            self.wf(),
            code < TABLE_SIZE,
        ensures
            match expanded(self.codes(), code as int, 8193) {
                Some(s) => r == Ok::<u8, Error>(s[0]) && final(out)@ == old(out)@ + s && s.len()
                    > 0,
                None => r == Err::<u8, Error>(Error::Malformed),
            },
    {
        let mut stack: Vec<u8> = Vec::new();
        let mut current: u16 = code;
        let mut left: u32 = 8193;
        let ghost c = self.codes();
        let ghost target = expanded(c, code as int, 8193);
        loop
            invariant_except_break
                self.wf(),
                c == self.codes(),
                current < TABLE_SIZE,
                left <= 8193,
                target == expanded(c, code as int, 8193),
                out@ == old(out)@,
                target == match expanded(c, current as int, left as nat) {
                    Some(s) => Some(s + reversed(stack@)),
                    None => None,
                },
            ensures
                out@ == old(out)@,
                target == expanded(c, code as int, 8193),
                c == self.codes(),
                stack@.len() > 0,
                target == Some(reversed(stack@)),
            decreases left,
        {
            if left == 0 {
                return Err(Error::Malformed);
            }
            let parent: u16 = self.parent[current as usize];
            if parent == FREE {
                return Err(Error::Malformed);
            }
            let value: u8 = self.value[current as usize];
            let ghost was = stack@;
            stack.push(value);
            assert(reversed(stack@) =~= seq![value] + reversed(was));
            if parent == ROOT {
                break;
            }
            proof {
                if let Some(s) = expanded(c, parent as int, (left - 1) as nat) {
                    assert(s.push(value) + reversed(was) =~= s + reversed(stack@));
                }
            }
            current = parent;
            left = left - 1;
        }
        let ghost all = reversed(stack@);
        let mut k: usize = stack.len();
        assert(all.take(0) =~= Seq::<u8>::empty());
        while k > 0
            invariant
                k <= stack@.len(),
                all == reversed(stack@),
                out@ == old(out)@ + all.take(stack@.len() - k),
            decreases k,
        {
            k = k - 1;
            out.push(stack[k]);
            assert(all.take(stack@.len() - k) =~= all.take(stack@.len() - k - 1).push(
                stack@[k as int],
            ));
        }
        assert(all.take(stack@.len() as int) =~= all);
        Ok(stack[stack.len() - 1])
    }
}

spec fn reversed(s: Seq<u8>) -> Seq<u8> {
    Seq::new(s.len(), |i: int| s[s.len() - 1 - i])
}

/// The whole of a shrunk entry, decoded.
#[verifier::rlimit(40)]
#[verifier::spinoff_prover]
pub fn decompress(data: &[u8], size_hint: usize) -> (r: Result<Vec<u8>>)
    ensures
        match decoded(data@) {
            Some(all) => r matches Ok(out) && out@ == all,
            None => r matches Err(e) && e == Error::Malformed,
        },
{
    proof {
        lemma2_to64();
    }
    let mut source: BitReader = BitReader::new(data);
    let mut table: Table = Table::new();
    let mut out: Vec<u8> = Vec::new();
    let mut code_bits: u32 = MIN_CODE_BITS;
    let first: u32 = match source.bits(code_bits) {
        Some(v) => v,
        None => {
            return Ok(out);
        },
    };
    let mut previous: u16 = first as u16;
    if previous >= 256 {
        return Err(Error::Malformed);
    }
    out.push(previous as u8);
    assert(out@ =~= seq![first as u8]);
    loop
        invariant
            source.wf(),
            source.data() == data@,
            table.wf(),
            9 <= code_bits <= 13,
            previous < TABLE_SIZE,
            decoded(data@) == run(
                data@,
                Shrunk {
                    codes: table.codes(),
                    width: code_bits as nat,
                    previous,
                    p: source.at(),
                    out: out@,
                },
            ),
        decreases 8 * data@.len() - source.at(),
    {
        proof {
            source.lemma_at();
            lemma2_to64();
            if code_bits < 13 {
                lemma_pow2_strictly_increases(code_bits as nat, 13);
            }
        }
        let code: u16 = match source.bits(code_bits) {
            Some(v) => v as u16,
            None => {
                return Ok(out);
            },
        };
        if code == ESCAPE {
            proof {
                source.lemma_at();
            }
            match source.bits(code_bits) {
                Some(what) => {
                    if what == 1 {
                        code_bits = code_bits + 1;
                        if code_bits > MAX_CODE_BITS {
                            return Err(Error::Malformed);
                        }
                    } else if what == 2 {
                        table.partial_clear();
                    } else {
                        return Err(Error::Malformed);
                    }
                },
                None => {
                    return Ok(out);
                },
            }
            proof {
                source.lemma_at();
            }
            continue ;
        }
        let mut piece: Vec<u8> = Vec::new();
        let first_byte: u8 = if table.is_free(code) {
            match table.expand(previous, &mut piece) {
                Ok(f) => {
                    let ghost s = expanded(table.codes(), previous as int, 8193)->Some_0;
                    assert(Seq::<u8>::empty() + s =~= s);
                    piece.push(f);
                    f
                },
                Err(e) => {
                    return Err(e);
                },
            }
        } else {
            match table.expand(code, &mut piece) {
                Ok(f) => {
                    let ghost s = expanded(table.codes(), code as int, 8193)->Some_0;
                    assert(Seq::<u8>::empty() + s =~= s);
                    f
                },
                Err(e) => {
                    return Err(e);
                },
            }
        };
        proof {
            source.lemma_at();
            assert(Some(piece@) == self::piece(table.codes(), previous, code));
            assert(piece@[0] == first_byte);
        }
        let ghost before = out@;
        out.extend_from_slice(piece.as_slice());
        assert(out@ =~= before + piece@);
        table.allocate(previous, first_byte);
        previous = code;
    }
}

} // verus!
