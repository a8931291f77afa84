//! How large blocks may be, and how many code tables they may have.
use crate::codecs::bzip2::bitio;
use crate::codecs::bzip2::crc;
use crate::codecs::bzip2::syntax;
use crate::codecs::bzip2::syntax::{Fed, Mtf};
use vstd::prelude::*;

verus! {

/// A byte goes behind what was decoded and the run before it as long as all of
/// it fits, and comes first from then on.
pub proof fn lemma_byte(m: Mtf, j: int, limit: nat)
    requires
        1 <= j < m.list.len(),
        m.out.len() <= limit,
    ensures
        syntax::feed(m, j + 1, limit) is More <==> m.out.len() + m.run + 1 <= limit,
        syntax::feed(m, j + 1, limit) matches Fed::More(n) ==> {
            &&& n.out == m.out + crc::run_of(m.list[0], m.run) + seq![m.list[j]]
            &&& n.run == 0
            &&& n.list.len() == m.list.len()
            &&& n.list[0] == m.list[j]
            &&& forall|i: int| 0 <= i < j ==> #[trigger] n.list[i + 1] == m.list[i]
            &&& forall|i: int| j < i < m.list.len() ==> #[trigger] n.list[i] == m.list[i]
        },
{
    if let Fed::More(n) = syntax::feed(m, j + 1, limit) {
        assert(n.out =~= m.out + crc::run_of(m.list[0], m.run) + seq![m.list[j]]);
    }
}

/// The symbol after the last byte ends a block whose last run fits.
pub proof fn lemma_last(m: Mtf, limit: nat)
    requires
        m.list.len() >= 1,
        m.out.len() <= limit,
    ensures
        syntax::feed(m, m.list.len() as int + 1, limit) is End <==> m.out.len() + m.run <= limit,
        syntax::feed(m, m.list.len() as int + 1, limit) matches Fed::End(out) ==> out == m.out
            + crc::run_of(m.list[0], m.run),
{
    if m.run == 0 {
        assert(m.out + crc::run_of(m.list[0], 0) =~= m.out);
    }
}

/// No block is longer than its stream allows.
pub proof fn lemma_fits(
    b: Seq<bool>,
    p: int,
    tables: Seq<Seq<u8>>,
    selectors: Seq<int>,
    k: nat,
    m: Mtf,
    limit: nat,
)
    requires
        m.out.len() <= limit,
    ensures
        syntax::body(b, p, tables, selectors, k, m, limit) matches Some((out, q)) ==> out.len()
            <= limit && p < q <= b.len(),
    decreases b.len() - p,
{
    let g = (k / 50) as int;
    if g < selectors.len() {
        if let Some((s, q)) = syntax::symbol(b, p, tables[selectors[g]]) {
            if p < q <= b.len() {
                if let Fed::More(n) = syntax::feed(m, s, limit) {
                    lemma_fits(b, q, tables, selectors, k + 1, n, limit);
                }
            }
        }
    }
}

/// Fifty symbols after one another are read with one table.
pub proof fn lemma_group(
    b: Seq<bool>,
    p: int,
    tables: Seq<Seq<u8>>,
    selectors: Seq<int>,
    group: int,
    r: int,
    m: Mtf,
    limit: nat,
)
    requires
        0 <= r < 50,
        0 <= group,
    ensures
        group >= selectors.len() ==> syntax::body(
            b,
            p,
            tables,
            selectors,
            (50 * group + r) as nat,
            m,
            limit,
        ) is None,
        group < selectors.len() && syntax::symbol(b, p, tables[selectors[group]]) is None
            ==> syntax::body(b, p, tables, selectors, (50 * group + r) as nat, m, limit) is None,
        group < selectors.len() ==> (syntax::symbol(b, p, tables[selectors[group]]) matches Some(
            (s, q),
        ) ==> p < q <= b.len() ==> syntax::body(
            b,
            p,
            tables,
            selectors,
            (50 * group + r) as nat,
            m,
            limit,
        ) == match syntax::feed(m, s, limit) {
            Fed::Bad => None,
            Fed::End(out) => Some((out, q)),
            Fed::More(n) => syntax::body(
                b,
                q,
                tables,
                selectors,
                (50 * group + r + 1) as nat,
                n,
                limit,
            ),
        }),
{
    assert((50 * group + r) / 50 == group);
}

/// A block has two to six code tables and at least one group.
pub proof fn lemma_table_count(b: Seq<bool>, p: int, n: nat)
    ensures
        syntax::codes(b, p, n) matches Some((tables, selectors, q)) ==> {
            &&& bitio::field(b, p, 3) matches Some((count, z)) && 2 <= count <= 6 && tables.len()
                == count
            &&& selectors.len() >= 1
        },
{
    if let Some((count, q)) = bitio::field(b, p, 3) {
        if let Some((groups, z)) = bitio::field(b, q, 15) {
            if let Some((selectors, y)) = syntax::picks(b, z, syntax::upto(count), groups) {
                lemma_picked(b, z, syntax::upto(count), groups);
                lemma_tabled(b, y, n, count);
            }
        }
    }
}

proof fn lemma_picked(b: Seq<bool>, p: int, order: Seq<int>, n: nat)
    ensures
        syntax::picks(b, p, order, n) matches Some((selectors, q)) ==> selectors.len() == n,
    decreases n,
{
    if n > 0 {
        if let Some((j, q)) = syntax::unary(b, p, 0, order.len() as int) {
            lemma_picked(b, q, syntax::front(order, j), (n - 1) as nat);
        }
    }
}

proof fn lemma_tabled(b: Seq<bool>, p: int, n: nat, count: nat)
    ensures
        syntax::tables_at(b, p, n, count) matches Some((tables, q)) ==> tables.len() == count,
    decreases count,
{
    if count > 0 {
        if let Some((len, q)) = bitio::field(b, p, 5) {
            if let Some((table, z)) = syntax::lengths_at(b, q, len as int, n) {
                lemma_tabled(b, z, n, (count - 1) as nat);
            }
        }
    }
}

} // verus!
