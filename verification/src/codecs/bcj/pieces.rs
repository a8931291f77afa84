//! Filters that take their data piece by piece.
use crate::codecs::bcj;
use crate::codecs::bcj::delta;
use crate::codecs::bcj::scan;
use crate::codecs::bcj::scan::DELTA;
use crate::codecs::bcj::words;
use crate::utils::error::Error;
use vstd::prelude::*;

verus! {

/// What a filter carries from one piece to the next.
pub struct At {
    /// The last bytes that differences were or will be taken from.
    pub history: Seq<u8>,
    /// Where the last opcodes stand.
    pub mask: u32,
    /// Where the next code stands.
    pub position: u32,
}

/// What becomes of a piece.
pub struct Turn {
    /// The piece after it was converted.
    pub out: Seq<u8>,
    /// How much of it is settled.
    pub done: int,
    /// What is carried on.
    pub next: At,
}

/// One piece. The last one is settled whole.
pub open spec fn turned(
    id: u64,
    up: bool,
    distance: int,
    at: At,
    data: Seq<u8>,
    last: bool,
) -> Turn {
    if id == DELTA {
        Turn {
            out: delta::converted(up, at.history, data, distance),
            done: data.len() as int,
            next: At {
                history: delta::ending(
                    at.history + delta::plain(up, at.history, data, distance),
                    distance,
                ),
                ..at
            },
        }
    } else {
        let s = scan::scan(id, up, data, at.mask, at.position);
        let done = if last {
            data.len() as int
        } else {
            s.done
        };
        Turn {
            out: s.out,
            done,
            next: At {
                mask: s.mask,
                position: words::shifted(true, at.position, (done % 0x1_0000_0000) as u32),
                ..at
            },
        }
    }
}

/// Pieces fed one after another, what was not settled standing before the
/// next piece, and at the end alone.
pub open spec fn fed(
    id: u64,
    up: bool,
    distance: int,
    at: At,
    held: Seq<u8>,
    parts: Seq<Seq<u8>>,
) -> Seq<u8>
    decreases parts.len(),
{
    if parts.len() == 0 {
        turned(id, up, distance, at, held, true).out
    } else {
        let t = turned(id, up, distance, at, held + parts.first(), false);
        t.out.take(t.done) + fed(id, up, distance, t.next, t.out.skip(t.done), parts.drop_first())
    }
}

proof fn lemma_fed_at(
    id: u64,
    up: bool,
    distance: int,
    at: At,
    held: Seq<u8>,
    parts: Seq<Seq<u8>>,
)
    requires
        id == DELTA && distance >= 1 || scan::is_branch(id) && at.mask < 8,
    ensures
        fed(id, up, distance, at, held, parts) == turned(
            id,
            up,
            distance,
            at,
            held + parts.flatten(),
            true,
        ).out,
    decreases parts.len(),
{
    if parts.len() == 0 {
        assert(held + parts.flatten() =~= held);
    } else {
        let w = held + parts.first();
        let more = parts.drop_first().flatten();
        let t = turned(id, up, distance, at, w, false);
        assert(held + parts.flatten() =~= w + more);
        if id == DELTA {
            delta::lemma_pieces(up, at.history, w, more, distance);
            delta::lemma_len(up, at.history, w, distance);
            assert(t.out.skip(t.done) + more =~= more);
            assert(t.out.take(t.done) =~= t.out);
        } else {
            scan::lemma_pieces(id, up, w, more, at.mask, at.position);
        }
        lemma_fed_at(id, up, distance, t.next, t.out.skip(t.done), parts.drop_first());
    }
}

/// Data fed to a filter in any number of pieces, cut anywhere, comes out as
/// if it had come at once.
pub proof fn lemma_fed(id: u64, up: bool, props: Seq<u8>, at: At, parts: Seq<Seq<u8>>)
    requires
        at.history.len() == 0,
        at.mask == 0,
        if id == DELTA {
            props.len() > 0
        } else {
            bcj::start_of(id, props) == Ok::<u32, Error>(at.position)
        },
    ensures
        bcj::converted(id, up, props, parts.flatten()) == Ok::<Seq<u8>, Error>(
            fed(id, up, props[0] + 1, at, Seq::empty(), parts),
        ),
{
    lemma_fed_at(id, up, props[0] + 1, at, Seq::empty(), parts);
    assert(at.history =~= Seq::<u8>::empty());
    assert(Seq::<u8>::empty() + parts.flatten() =~= parts.flatten());
}

} // verus!
