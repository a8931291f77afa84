//! What a search for matches finds: chains of earlier places that look alike.
use vstd::prelude::*;

verus! {

/// No place.
pub const NO_PLACE: u32 = 0xffff_ffff;

/// The places that were remembered: the latest for each hash, and for each
/// place the one before it.
pub struct Places {
    pub heads: Seq<u32>,
    pub links: Seq<u32>,
}

/// No places, in tables of these sizes.
pub open spec fn no_places(heads: nat, links: nat) -> Places {
    Places { heads: Seq::new(heads, |i: int| NO_PLACE), links: Seq::new(links, |i: int| NO_PLACE) }
}

/// One more place.
pub open spec fn remembered(p: Places, slot: int, at: int) -> Places {
    Places {
        heads: p.heads.update(slot, (at % 0x1_0000_0000) as u32),
        links: p.links.update(at % p.links.len() as int, p.heads[slot]),
    }
}

/// How far the data at `a` and at `b` agree, up to `limit`, where they are
/// known to for `k` bytes.
pub open spec fn common(all: Seq<u8>, a: int, b: int, k: int, limit: int) -> int
    decreases limit - k,
{
    if k < limit && all[a + k] == all[b + k] {
        common(all, a, b, k + 1, limit)
    } else {
        k
    }
}

pub proof fn lemma_common(all: Seq<u8>, a: int, b: int, k: int, limit: int)
    requires
        k <= limit,
    ensures
        k <= common(all, a, b, k, limit) <= limit,
        forall|i: int| k <= i < common(all, a, b, k, limit) ==> all[a + i] == #[trigger] all[b + i],
    decreases limit - k,
{
    if k < limit && all[a + k] == all[b + k] {
        lemma_common(all, a, b, k + 1, limit);
    }
}

/// The longest agreement with what stands at `at` among the next `tries`
/// places of a chain, and how far back it is; the nearest of those that are
/// as long, and `best` where none is longer.
pub open spec fn walked(
    links: Seq<u32>,
    all: Seq<u8>,
    oldest: int,
    at: int,
    limit: int,
    candidate: u32,
    tries: nat,
    best: (int, int),
) -> (int, int)
    decreases tries,
{
    if candidate == NO_PLACE || tries == 0 || candidate < oldest || candidate >= at || best.0
        >= limit {
        best
    } else {
        let len = common(all, candidate as int, at, 0, limit);
        walked(
            links,
            all,
            oldest,
            at,
            limit,
            links[candidate as int % links.len() as int],
            (tries - 1) as nat,
            if len > best.0 {
                (len, at - candidate)
            } else {
                best
            },
        )
    }
}

/// More data behind what is looked at changes nothing.
pub proof fn lemma_common_more(
    all: Seq<u8>,
    more: Seq<u8>,
    a: int,
    b: int,
    k: int,
    limit: int,
)
    requires
        0 <= a,
        0 <= b,
        0 <= k,
        a + limit <= all.len(),
        b + limit <= all.len(),
    ensures
        common(all + more, a, b, k, limit) == common(all, a, b, k, limit),
    decreases limit - k,
{
    if k < limit && all[a + k] == all[b + k] {
        lemma_common_more(all, more, a, b, k + 1, limit);
    }
}

/// More data behind what is looked at changes nothing.
pub proof fn lemma_walked_more(
    links: Seq<u32>,
    all: Seq<u8>,
    more: Seq<u8>,
    oldest: int,
    at: int,
    limit: int,
    candidate: u32,
    tries: nat,
    best: (int, int),
)
    requires
        0 <= oldest,
        0 <= at,
        at + limit <= all.len(),
    ensures
        walked(links, all + more, oldest, at, limit, candidate, tries, best) == walked(
            links,
            all,
            oldest,
            at,
            limit,
            candidate,
            tries,
            best,
        ),
    decreases tries,
{
    if !(candidate == NO_PLACE || tries == 0 || candidate < oldest || candidate >= at || best.0
        >= limit) {
        lemma_common_more(all, more, candidate as int, at, 0, limit);
        let len = common(all, candidate as int, at, 0, limit);
        lemma_walked_more(
            links,
            all,
            more,
            oldest,
            at,
            limit,
            links[candidate as int % links.len() as int],
            (tries - 1) as nat,
            if len > best.0 {
                (len, at - candidate)
            } else {
                best
            },
        );
    }
}

} // verus!
