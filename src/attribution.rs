//! Proportional attribution of value between the input and output addresses
//! of one transaction.
//!
//! Every distinct input address is paired with every distinct output address
//! (a full bipartite product, not a flow decomposition). The pair (from, to)
//! receives `round(input[from] / input_total * output[to])`, rounded half up,
//! computed exactly on integers. Pairs with `from == to` are skipped.

use vstd::prelude::*;
use vstd::arithmetic::div_mod::{lemma_fundamental_div_mod, lemma_mod_multiples_basic, lemma_div_multiples_vanish};

verus! {

/// An address with an amount of value held at it.
pub type Holding = (String, u64);

/// The mathematical content of a list of holdings.
pub open spec fn holdings_view(v: Seq<Holding>) -> Seq<(Seq<char>, u64)> {
    v.map_values(|h: Holding| (h.0@, h.1))
}

/// Sum of the values held at address `a`.
pub open spec fn addr_total(s: Seq<(Seq<char>, u64)>, a: Seq<char>) -> int
    decreases s.len(),
{
    if s.len() == 0 {
        0
    } else {
        addr_total(s.drop_last(), a) + if s.last().0 == a {
            s.last().1 as int
        } else {
            0
        }
    }
}

/// Sum of all values.
pub open spec fn grand_total(s: Seq<(Seq<char>, u64)>) -> int
    decreases s.len(),
{
    if s.len() == 0 {
        0
    } else {
        grand_total(s.drop_last()) + s.last().1 as int
    }
}

/// The distinct addresses, in order of first appearance.
pub open spec fn addresses(s: Seq<(Seq<char>, u64)>) -> Seq<Seq<char>>
    decreases s.len(),
{
    if s.len() == 0 {
        Seq::empty()
    } else {
        let d = addresses(s.drop_last());
        if d.contains(s.last().0) {
            d
        } else {
            d.push(s.last().0)
        }
    }
}

/// Each distinct address with the sum of its values, in order of first appearance.
pub open spec fn aggregated(s: Seq<(Seq<char>, u64)>) -> Seq<(Seq<char>, int)> {
    totals_of(addresses(s), s)
}

/// Each address of `d` with the sum of its values in `s`.
pub open spec fn totals_of(d: Seq<Seq<char>>, s: Seq<(Seq<char>, u64)>) -> Seq<(Seq<char>, int)> {
    d.map_values(|a: Seq<char>| (a, addr_total(s, a)))
}

/// `inp * out / total`, rounded half up.
pub open spec fn attributed_amount(inp: int, total: int, out: int) -> int {
    (inp * out) / total + if 2 * ((inp * out) % total) >= total {
        1int
    } else {
        0int
    }
}

/// The (from, to, amount) edges that pair one input address with each output
/// address other than itself.
pub open spec fn row(from: (Seq<char>, int), outs: Seq<(Seq<char>, int)>, total: int) -> Seq<
    (Seq<char>, Seq<char>, int),
>
    decreases outs.len(),
{
    if outs.len() == 0 {
        Seq::empty()
    } else {
        let r = row(from, outs.drop_last(), total);
        let o = outs.last();
        if from.0 != o.0 {
            r.push((from.0, o.0, attributed_amount(from.1, total, o.1)))
        } else {
            r
        }
    }
}

/// All edges, input address by input address.
pub open spec fn edges(ins: Seq<(Seq<char>, int)>, outs: Seq<(Seq<char>, int)>, total: int) -> Seq<
    (Seq<char>, Seq<char>, int),
>
    decreases ins.len(),
{
    if ins.len() == 0 {
        Seq::empty()
    } else {
        edges(ins.drop_last(), outs, total) + row(ins.last(), outs, total)
    }
}

/// Whether attribution has anything to divide: a positive input total, and
/// totals that fit the 64-bit amounts of a transfer record. Otherwise the
/// transaction yields no edges.
pub open spec fn attributable(ins: Seq<(Seq<char>, u64)>, outs: Seq<(Seq<char>, u64)>) -> bool {
    0 < grand_total(ins) <= u64::MAX && grand_total(outs) <= u64::MAX
}

/// The edges of a transaction with resolved inputs `ins` and outputs `outs`.
pub open spec fn attribution(ins: Seq<(Seq<char>, u64)>, outs: Seq<(Seq<char>, u64)>) -> Seq<
    (Seq<char>, Seq<char>, int),
> {
    if attributable(ins, outs) {
        edges(aggregated(ins), aggregated(outs), grand_total(ins))
    } else {
        Seq::empty()
    }
}

proof fn lemma_addr_total_bound(s: Seq<(Seq<char>, u64)>, a: Seq<char>)
    ensures
        0 <= addr_total(s, a) <= grand_total(s) <= s.len() * (u64::MAX as int),
    decreases s.len(),
{
    if s.len() > 0 {
        lemma_addr_total_bound(s.drop_last(), a);
    }
}

proof fn lemma_addresses_distinct(s: Seq<(Seq<char>, u64)>)
    ensures
        addresses(s).no_duplicates(),
        forall|a: Seq<char>| #[trigger] addresses(s).contains(a) <==> exists|i: int|
            0 <= i < s.len() && s[i].0 == a,
    decreases s.len(),
{
    if s.len() > 0 {
        let p = s.drop_last();
        let d = addresses(p);
        let x = s.last().0;
        lemma_addresses_distinct(p);
        assert forall|a: Seq<char>| #[trigger] addresses(s).contains(a) <==> exists|i: int|
            0 <= i < s.len() && s[i].0 == a by {
            if addresses(s).contains(a) {
                let k = choose|k: int| 0 <= k < addresses(s).len() && addresses(s)[k] == a;
                if k < d.len() {
                    assert(d.contains(a));
                    let i = choose|i: int| 0 <= i < p.len() && p[i].0 == a;
                    assert(s[i].0 == a);
                } else {
                    assert(s[s.len() - 1].0 == a);
                }
            }
            if exists|i: int| 0 <= i < s.len() && s[i].0 == a {
                let i = choose|i: int| 0 <= i < s.len() && s[i].0 == a;
                if i < s.len() - 1 {
                    assert(p[i].0 == a);
                    assert(d.contains(a));
                    let k = choose|k: int| 0 <= k < d.len() && d[k] == a;
                    assert(addresses(s)[k] == a);
                } else if d.contains(x) {
                    let k = choose|k: int| 0 <= k < d.len() && d[k] == x;
                    assert(addresses(s)[k] == a);
                } else {
                    assert(addresses(s)[d.len() as int] == a);
                }
            }
        }
    }
}

/// Sums the values of each address, keeping the order of first appearance.
pub fn aggregate(pairs: &Vec<Holding>) -> (r: Vec<(String, u128)>)
    ensures
        r@.len() == aggregated(holdings_view(pairs@)).len(),
        forall|k: int|
            0 <= k < r@.len() ==> (r@[k].0@, r@[k].1 as int) == #[trigger] aggregated(
                holdings_view(pairs@),
            )[k],
{
    let ghost s = holdings_view(pairs@);
    let mut r: Vec<(String, u128)> = Vec::new();
    let mut i: usize = 0;
    while i < pairs.len()
        invariant
            i <= pairs@.len(),
            s == holdings_view(pairs@),
            r@.len() == addresses(s.take(i as int)).len(),
            forall|k: int|
                0 <= k < r@.len() ==> r@[k].0@ == addresses(s.take(i as int))[k] && r@[k].1
                    as int == addr_total(s.take(i as int), addresses(s.take(i as int))[k]),
        decreases pairs@.len() - i,
    {
        let ghost p = s.take(i as int);
        let ghost q = s.take(i as int + 1);
        assert(q.drop_last() =~= p);
        assert(q.last() == s[i as int]);
        proof {
            lemma_addresses_distinct(p);
            assert forall|k: int| 0 <= k < r@.len() implies r@[k].1 as int <= i * (u64::MAX as int) by {
                lemma_addr_total_bound(p, addresses(p)[k]);
            }
        }
        let addr = &pairs[i].0;
        let value = pairs[i].1;
        let mut j: usize = 0;
        let mut found = false;
        while j < r.len() && !found
            invariant
                j <= r@.len(),
                !found ==> forall|k: int| 0 <= k < j ==> r@[k].0@ != addr@,
                found ==> j < r@.len() && r@[j as int].0@ == addr@,
            decreases r@.len() - j + (if found { 0int } else { 1int }),
        {
            if r[j].0 == *addr {
                found = true;
            } else {
                j = j + 1;
            }
        }
        if found {
            assert(addresses(p).contains(addr@)) by {
                assert(addresses(p)[j as int] == addr@);
            }
            assert(addresses(q) == addresses(p));
            let old_v = r[j].1;
            let ghost r0 = r@;
            proof {
                lemma_addr_total_bound(p, addr@);
                assert((i as int) * (u64::MAX as int) + (u64::MAX as int) <= u128::MAX) by (nonlinear_arith)
                    requires i <= usize::MAX;
            }
            let entry = (r[j].0.clone(), old_v + value as u128);
            r.set(j, entry);
            proof {
                assert forall|k: int| 0 <= k < r@.len() implies r@[k].0@ == addresses(q)[k]
                    && r@[k].1 as int == addr_total(q, addresses(q)[k]) by {
                    if k != j {
                        assert(r0[k].0@ == addresses(p)[k]);
                        assert(addresses(p)[k] != addresses(p)[j as int]);
                    }
                }
            }
        } else {
            assert(!addresses(p).contains(addr@)) by {
                if addresses(p).contains(addr@) {
                    let k = choose|k: int| 0 <= k < addresses(p).len() && addresses(p)[k] == addr@;
                    assert(r@[k].0@ == addr@);
                    assert(!(k < j));
                }
            }
            assert(addr_total(p, addr@) == 0) by {
                lemma_no_address_zero(p, addr@);
            }
            r.push((addr.clone(), value as u128));
        }
        i = i + 1;
    }
    assert(s.take(pairs@.len() as int) =~= s);
    r
}

proof fn lemma_no_address_zero(s: Seq<(Seq<char>, u64)>, a: Seq<char>)
    requires
        !addresses(s).contains(a),
    ensures
        addr_total(s, a) == 0,
    decreases s.len(),
{
    if s.len() > 0 {
        lemma_addresses_distinct(s);
        lemma_addresses_distinct(s.drop_last());
        lemma_no_address_zero(s.drop_last(), a);
        assert(s[s.len() - 1].0 != a);
    }
}

/// One attributed movement of value between two addresses of a transaction.
pub struct Transfer {
    pub network_id: u64,
    pub block_height: u64,
    pub block_hash: String,
    pub tx_hash: String,
    pub from_address: String,
    pub to_address: String,
    /// Absent for the network's native asset.
    pub asset: Option<String>,
    pub amount: u64,
    /// The transaction's total output value.
    pub total: u64,
}

/// Where a transaction stands: its network, block and hash.
pub struct TxContext {
    pub network_id: u64,
    pub block_height: u64,
    pub block_hash: String,
    pub tx_hash: String,
}

/// Whether `t` records the edge `e` of the transaction at `ctx` with output total `total`.
pub open spec fn records(t: Transfer, ctx: TxContext, e: (Seq<char>, Seq<char>, int), total: int) -> bool {
    &&& t.network_id == ctx.network_id
    &&& t.block_height == ctx.block_height
    &&& t.block_hash@ == ctx.block_hash@
    &&& t.tx_hash@ == ctx.tx_hash@
    &&& t.from_address@ == e.0
    &&& t.to_address@ == e.1
    &&& t.asset is None
    &&& t.amount == e.2
    &&& t.total == total
}

/// Whether the transfers `r` record the edges `es`, one for one and in order.
pub open spec fn records_all(r: Seq<Transfer>, ctx: TxContext, es: Seq<(Seq<char>, Seq<char>, int)>, total: int) -> bool {
    &&& r.len() == es.len()
    &&& forall|k: int| 0 <= k < r.len() ==> records(#[trigger] r[k], ctx, es[k], total)
}

/// Sum of all the values of the holdings.
pub fn total_value(pairs: &Vec<Holding>) -> (t: u128)
    ensures
        t == grand_total(holdings_view(pairs@)),
{
    let ghost s = holdings_view(pairs@);
    let mut t: u128 = 0;
    let mut i: usize = 0;
    while i < pairs.len()
        invariant
            i <= pairs@.len(),
            s == holdings_view(pairs@),
            t == grand_total(s.take(i as int)),
        decreases pairs@.len() - i,
    {
        let ghost p = s.take(i as int);
        assert(s.take(i as int + 1).drop_last() =~= p);
        proof {
            lemma_addr_total_bound(p, Seq::empty());
            assert((i as int) * (u64::MAX as int) + (u64::MAX as int) <= u128::MAX) by (nonlinear_arith)
                requires i <= usize::MAX;
        }
        t = t + pairs[i].1 as u128;
        i = i + 1;
    }
    assert(s.take(pairs@.len() as int) =~= s);
    t
}

/// The share of `out` that an input of `inp` out of `total` receives, rounded half up.
pub fn share(inp: u64, total: u64, out: u64) -> (r: u64)
    requires
        0 < total,
        inp <= total,
    ensures
        r as int == attributed_amount(inp as int, total as int, out as int),
        r <= out,
        inp == total ==> r == out,
{
    assert((inp as int) * (out as int) <= u64::MAX as int * u64::MAX as int) by (nonlinear_arith)
        requires
            inp <= u64::MAX,
            out <= u64::MAX,
    ;
    let p: u128 = inp as u128 * out as u128;
    let q: u128 = p / total as u128;
    let rem: u128 = p % total as u128;
    proof {
        let (i, t, o) = (inp as int, total as int, out as int);
        lemma_fundamental_div_mod(i * o, t);
        assert(p as int == i * o);
        assert(t * (q as int) + rem as int == i * o);
        if i == t {
            lemma_mod_multiples_basic(o, t);
            lemma_div_multiples_vanish(o, t);
            assert(t * o == o * t) by (nonlinear_arith);
            assert(rem == 0 && q == out);
        } else {
            assert(q < o || (q == 0 && o == 0 && rem == 0)) by (nonlinear_arith)
                requires
                    t * (q as int) + rem as int == i * o,
                    0 <= rem,
                    i < t,
                    0 <= i,
                    0 <= o,
                    0 <= q,
            ;
        }
    }
    if 2 * rem >= total as u128 {
        (q + 1) as u64
    } else {
        q as u64
    }
}

proof fn lemma_aggregated_bound(s: Seq<(Seq<char>, u64)>, k: int)
    requires
        0 <= k < aggregated(s).len(),
    ensures
        0 <= aggregated(s)[k].1 <= grand_total(s),
{
    lemma_addr_total_bound(s, addresses(s)[k]);
}

/// The transfers of one transaction whose inputs resolved to `inputs` and whose
/// outputs went to `outputs`.
pub fn attribute(ctx: &TxContext, inputs: &Vec<Holding>, outputs: &Vec<Holding>) -> (r: Vec<Transfer>)
    ensures
        records_all(
            r@,
            *ctx,
            attribution(holdings_view(inputs@), holdings_view(outputs@)),
            grand_total(holdings_view(outputs@)),
        ),
{
    let ghost iv = holdings_view(inputs@);
    let ghost ov = holdings_view(outputs@);
    let mut ret: Vec<Transfer> = Vec::new();
    let input_total = total_value(inputs);
    let output_total = total_value(outputs);
    if input_total == 0 || input_total > u64::MAX as u128 || output_total > u64::MAX as u128 {
        return ret;
    }
    let t = input_total as u64;
    let ot = output_total as u64;
    let ins = aggregate(inputs);
    let outs = aggregate(outputs);
    let ghost a = aggregated(iv);
    let ghost b = aggregated(ov);
    let mut i: usize = 0;
    while i < ins.len()
        invariant
            i <= ins@.len(),
            ins@.len() == a.len(),
            outs@.len() == b.len(),
            a == aggregated(iv),
            b == aggregated(ov),
            t as int == grand_total(iv),
            ot as int == grand_total(ov),
            0 < t,
            forall|k: int| 0 <= k < ins@.len() ==> (ins@[k].0@, ins@[k].1 as int) == #[trigger] a[k],
            forall|k: int| 0 <= k < outs@.len() ==> (outs@[k].0@, outs@[k].1 as int) == #[trigger] b[k],
            records_all(ret@, *ctx, edges(a.take(i as int), b, t as int), ot as int),
        decreases ins@.len() - i,
    {
        assert(a.take(i as int + 1).drop_last() =~= a.take(i as int));
        assert(a.take(i as int + 1).last() == a[i as int]);
        let ghost before = edges(a.take(i as int), b, t as int);
        proof {
            lemma_aggregated_bound(iv, i as int);
        }
        let from_value = ins[i].1 as u64;
        let mut j: usize = 0;
        while j < outs.len()
            invariant
                i < ins@.len(),
                ins@.len() == a.len(),
                j <= outs@.len(),
                outs@.len() == b.len(),
                b == aggregated(ov),
                (ins@[i as int].0@, ins@[i as int].1 as int) == a[i as int],
                from_value as int == a[i as int].1,
                from_value <= t,
                0 < t,
                t as int == grand_total(iv),
                ot as int == grand_total(ov),
                forall|k: int| 0 <= k < outs@.len() ==> (outs@[k].0@, outs@[k].1 as int) == #[trigger] b[k],
                records_all(ret@, *ctx, before + row(a[i as int], b.take(j as int), t as int), ot as int),
            decreases outs@.len() - j,
        {
            assert(b.take(j as int + 1).drop_last() =~= b.take(j as int));
            assert(b.take(j as int + 1).last() == b[j as int]);
            if ins[i].0 != outs[j].0 {
                proof {
                    lemma_aggregated_bound(ov, j as int);
                }
                let amount = share(from_value, t, outs[j].1 as u64);
                let ghost prev = before + row(a[i as int], b.take(j as int), t as int);
                ret.push(Transfer {
                    network_id: ctx.network_id,
                    block_height: ctx.block_height,
                    block_hash: ctx.block_hash.clone(),
                    tx_hash: ctx.tx_hash.clone(),
                    from_address: ins[i].0.clone(),
                    to_address: outs[j].0.clone(),
                    asset: None,
                    amount,
                    total: ot,
                });
                assert(before + row(a[i as int], b.take(j as int + 1), t as int) =~= prev.push(
                    (a[i as int].0, b[j as int].0, attributed_amount(a[i as int].1, t as int, b[j as int].1)),
                ));
                assert(records(ret@[ret@.len() - 1], *ctx, prev.push(
                    (a[i as int].0, b[j as int].0, attributed_amount(a[i as int].1, t as int, b[j as int].1)),
                ).last(), ot as int));
            }
            j = j + 1;
        }
        assert(b.take(outs@.len() as int) =~= b);
        i = i + 1;
    }
    assert(a.take(ins@.len() as int) =~= a);
    ret
}

proof fn lemma_row_no_self(from: (Seq<char>, int), outs: Seq<(Seq<char>, int)>, total: int)
    ensures
        forall|k: int| 0 <= k < row(from, outs, total).len() ==> #[trigger] row(from, outs, total)[k].0
            != row(from, outs, total)[k].1,
    decreases outs.len(),
{
    if outs.len() > 0 {
        let r = row(from, outs.drop_last(), total);
        lemma_row_no_self(from, outs.drop_last(), total);
        let o = outs.last();
        if from.0 != o.0 {
            let x = (from.0, o.0, attributed_amount(from.1, total, o.1));
            assert forall|k: int| 0 <= k < r.push(x).len() implies #[trigger] r.push(x)[k].0 != r.push(x)[k].1 by {
                if k < r.len() {
                    assert(r.push(x)[k] == r[k]);
                }
            }
        }
    }
}

proof fn lemma_edges_no_self(ins: Seq<(Seq<char>, int)>, outs: Seq<(Seq<char>, int)>, total: int)
    ensures
        forall|k: int| 0 <= k < edges(ins, outs, total).len() ==> #[trigger] edges(ins, outs, total)[k].0
            != edges(ins, outs, total)[k].1,
    decreases ins.len(),
{
    if ins.len() > 0 {
        let p = edges(ins.drop_last(), outs, total);
        let r = row(ins.last(), outs, total);
        lemma_edges_no_self(ins.drop_last(), outs, total);
        lemma_row_no_self(ins.last(), outs, total);
        assert forall|k: int| 0 <= k < (p + r).len() implies #[trigger] (p + r)[k].0 != (p + r)[k].1 by {
            if k >= p.len() {
                assert((p + r)[k] == r[k - p.len()]);
            }
        }
    }
}

/// No transfer is ever attributed from an address to itself, even when the
/// address appears among both the inputs and the outputs.
pub proof fn law_no_self_transfer(ins: Seq<(Seq<char>, u64)>, outs: Seq<(Seq<char>, u64)>)
    ensures
        forall|k: int| 0 <= k < attribution(ins, outs).len() ==> #[trigger] attribution(ins, outs)[k].0
            != attribution(ins, outs)[k].1,
{
    lemma_edges_no_self(aggregated(ins), aggregated(outs), grand_total(ins));
}

proof fn lemma_single_address_total(s: Seq<(Seq<char>, u64)>, a: Seq<char>)
    requires
        addresses(s) =~= seq![a],
    ensures
        addr_total(s, a) == grand_total(s),
    decreases s.len(),
{
    if s.len() > 0 {
        let p = s.drop_last();
        lemma_addresses_distinct(s);
        lemma_addresses_distinct(p);
        assert(addresses(s).contains(s.last().0)) by {
            assert(s[s.len() - 1].0 == s.last().0);
        }
        assert(s.last().0 == a);
        if p.len() > 0 {
            assert(addresses(p).contains(p[0].0));
            assert(addresses(p).len() <= 1);
            assert(addresses(p) =~= seq![a]);
            lemma_single_address_total(p, a);
        }
    }
}

/// A transaction whose inputs resolve to a single address and whose outputs go
/// to a single other address yields exactly one transfer, carrying the whole
/// output value. (An input total of zero leaves nothing to divide, so the
/// statement holds of attributable transactions.)
pub proof fn law_single_pair_full_value(
    ins: Seq<(Seq<char>, u64)>,
    outs: Seq<(Seq<char>, u64)>,
    from: Seq<char>,
    to: Seq<char>,
)
    requires
        addresses(ins) =~= seq![from],
        addresses(outs) =~= seq![to],
        from != to,
        attributable(ins, outs),
    ensures
        attribution(ins, outs) =~= seq![(from, to, grand_total(outs))],
{
    lemma_single_address_total(ins, from);
    lemma_single_address_total(outs, to);
    let t = grand_total(ins);
    let o = grand_total(outs);
    let a = aggregated(ins);
    let b = aggregated(outs);
    assert(a =~= seq![(from, t)]);
    assert(b =~= seq![(to, o)]);
    lemma_mod_multiples_basic(o, t);
    lemma_div_multiples_vanish(o, t);
    assert(t * o == o * t) by (nonlinear_arith);
    assert(attributed_amount(t, t, o) == o);
    assert(b.drop_last() =~= Seq::<(Seq<char>, int)>::empty());
    assert(a.drop_last() =~= Seq::<(Seq<char>, int)>::empty());
    assert(row((from, t), b.drop_last(), t) =~= Seq::<(Seq<char>, Seq<char>, int)>::empty());
    assert(b.last() == (to, o));
    assert(row((from, t), b, t) =~= seq![(from, to, o)]);
    assert(edges(a, b, t) =~= edges(a.drop_last(), b, t) + row((from, t), b, t));
}

/// Sum of the amounts of the edges that go to `x`.
pub open spec fn received(es: Seq<(Seq<char>, Seq<char>, int)>, x: Seq<char>) -> int
    decreases es.len(),
{
    if es.len() == 0 {
        0
    } else {
        received(es.drop_last(), x) + if es.last().1 == x {
            es.last().2
        } else {
            0
        }
    }
}

/// Sum of the values listed for address `x`.
pub open spec fn value_at(s: Seq<(Seq<char>, int)>, x: Seq<char>) -> int
    decreases s.len(),
{
    if s.len() == 0 {
        0
    } else {
        value_at(s.drop_last(), x) + if s.last().0 == x {
            s.last().1
        } else {
            0
        }
    }
}

/// Sum of all the values listed.
pub open spec fn sum_values(s: Seq<(Seq<char>, int)>) -> int
    decreases s.len(),
{
    if s.len() == 0 {
        0
    } else {
        sum_values(s.drop_last()) + s.last().1
    }
}

proof fn lemma_received_concat(a: Seq<(Seq<char>, Seq<char>, int)>, b: Seq<(Seq<char>, Seq<char>, int)>, x: Seq<char>)
    ensures
        received(a + b, x) == received(a, x) + received(b, x),
    decreases b.len(),
{
    if b.len() == 0 {
        assert(a + b =~= a);
    } else {
        assert((a + b).drop_last() =~= a + b.drop_last());
        assert((a + b).last() == b.last());
        lemma_received_concat(a, b.drop_last(), x);
    }
}

proof fn lemma_totals_drop_last(d: Seq<Seq<char>>, s: Seq<(Seq<char>, u64)>)
    requires
        d.len() > 0,
    ensures
        totals_of(d, s).drop_last() =~= totals_of(d.drop_last(), s),
        totals_of(d, s).last() == (d.last(), addr_total(s, d.last())),
{
}

proof fn lemma_value_at_totals(d: Seq<Seq<char>>, s: Seq<(Seq<char>, u64)>, x: Seq<char>)
    requires
        d.no_duplicates(),
    ensures
        value_at(totals_of(d, s), x) == if d.contains(x) {
            addr_total(s, x)
        } else {
            0
        },
    decreases d.len(),
{
    if d.len() > 0 {
        let p = d.drop_last();
        lemma_totals_drop_last(d, s);
        assert(p.no_duplicates());
        lemma_value_at_totals(p, s, x);
        if d.last() == x {
            assert(!p.contains(x)) by {
                if p.contains(x) {
                    let k = choose|k: int| 0 <= k < p.len() && p[k] == x;
                    assert(d[k] == d[d.len() - 1]);
                }
            }
            assert(d[d.len() - 1] == x);
        } else {
            assert(d.contains(x) == p.contains(x)) by {
                if d.contains(x) {
                    let k = choose|k: int| 0 <= k < d.len() && d[k] == x;
                    assert(p[k] == x);
                }
                if p.contains(x) {
                    let k = choose|k: int| 0 <= k < p.len() && p[k] == x;
                    assert(d[k] == x);
                }
            }
        }
    }
}

proof fn lemma_sum_totals_push(d: Seq<Seq<char>>, s: Seq<(Seq<char>, u64)>, e: (Seq<char>, u64))
    requires
        d.no_duplicates(),
    ensures
        sum_values(totals_of(d, s.push(e))) == sum_values(totals_of(d, s)) + if d.contains(e.0) {
            e.1 as int
        } else {
            0
        },
    decreases d.len(),
{
    if d.len() > 0 {
        let p = d.drop_last();
        lemma_totals_drop_last(d, s);
        lemma_totals_drop_last(d, s.push(e));
        assert(p.no_duplicates());
        lemma_sum_totals_push(p, s, e);
        assert(s.push(e).drop_last() =~= s);
        if d.last() == e.0 {
            assert(!p.contains(e.0)) by {
                if p.contains(e.0) {
                    let k = choose|k: int| 0 <= k < p.len() && p[k] == e.0;
                    assert(d[k] == d[d.len() - 1]);
                }
            }
            assert(d[d.len() - 1] == e.0);
        } else {
            assert(d.contains(e.0) == p.contains(e.0)) by {
                if d.contains(e.0) {
                    let k = choose|k: int| 0 <= k < d.len() && d[k] == e.0;
                    assert(p[k] == e.0);
                }
                if p.contains(e.0) {
                    let k = choose|k: int| 0 <= k < p.len() && p[k] == e.0;
                    assert(d[k] == e.0);
                }
            }
        }
    } else {
        assert(totals_of(d, s.push(e)) =~= Seq::<(Seq<char>, int)>::empty());
        assert(totals_of(d, s) =~= Seq::<(Seq<char>, int)>::empty());
        assert(!d.contains(e.0));
    }
}

proof fn lemma_sum_aggregated(s: Seq<(Seq<char>, u64)>)
    ensures
        sum_values(aggregated(s)) == grand_total(s),
    decreases s.len(),
{
    if s.len() == 0 {
        assert(aggregated(s) =~= Seq::<(Seq<char>, int)>::empty());
    } else {
        let p = s.drop_last();
        let e = s.last();
        let d = addresses(p);
        assert(p.push(e) =~= s);
        lemma_sum_aggregated(p);
        lemma_addresses_distinct(p);
        lemma_sum_totals_push(d, p, e);
        if !d.contains(e.0) {
            let d2 = d.push(e.0);
            lemma_totals_drop_last(d2, s);
            assert(d2.drop_last() =~= d);
            assert(d2.last() == e.0);
            lemma_no_address_zero(p, e.0);
        }
    }
}

proof fn lemma_share_bound(i: int, t: int, o: int)
    requires
        0 < t,
        0 <= i,
        0 <= o,
    ensures
        2 * t * attributed_amount(i, t, o) <= 2 * i * o + t,
        0 <= attributed_amount(i, t, o),
{
    let p = i * o;
    assert(0 <= p) by (nonlinear_arith)
        requires
            0 <= i,
            0 <= o,
            p == i * o,
    ;
    lemma_fundamental_div_mod(p, t);
    let q = p / t;
    let r = p % t;
    assert(0 <= r < t);
    assert(0 <= q) by (nonlinear_arith)
        requires
            p == t * q + r,
            0 <= p,
            r < t,
            0 < t,
    ;
    assert(2 * t * attributed_amount(i, t, o) <= 2 * p + t) by (nonlinear_arith)
        requires
            p == t * q + r,
            0 <= r < t,
            attributed_amount(i, t, o) == q + if 2 * r >= t { 1int } else { 0int },
    ;
    assert(2 * i * o == 2 * p) by (nonlinear_arith)
        requires
            p == i * o,
    ;
}

proof fn lemma_row_received(from: (Seq<char>, int), outs: Seq<(Seq<char>, int)>, t: int, x: Seq<char>, v: int)
    requires
        0 < t,
        0 <= from.1,
        forall|k: int| 0 <= k < outs.len() ==> 0 <= #[trigger] outs[k].1,
        forall|a: int, b: int| 0 <= a < b < outs.len() ==> #[trigger] outs[a].0 != #[trigger] outs[b].0,
        v == value_at(outs, x),
    ensures
        received(row(from, outs, t), x) == if from.0 != x {
            attributed_amount(from.1, t, v)
        } else {
            0
        },
        0 <= v,
    decreases outs.len(),
{
    if outs.len() == 0 {
        assert(attributed_amount(from.1, t, 0) == 0) by {
            assert(from.1 * 0 == 0);
        }
    } else {
        let p = outs.drop_last();
        let o = outs.last();
        lemma_row_received(from, p, t, x, value_at(p, x));
        if o.0 == x {
            assert(value_at(p, x) == 0) by {
                lemma_value_absent(p, x);
                assert forall|k: int| 0 <= k < p.len() implies p[k].0 != x by {
                    assert(outs[k].0 != outs[outs.len() - 1].0);
                }
            }
            assert(attributed_amount(from.1, t, 0) == 0) by {
                assert(from.1 * 0 == 0);
            }
        }
        let r = row(from, p, t);
        if from.0 != o.0 {
            let e = (from.0, o.0, attributed_amount(from.1, t, o.1));
            assert(r.push(e).drop_last() =~= r);
        }
    }
}

proof fn lemma_value_absent(s: Seq<(Seq<char>, int)>, x: Seq<char>)
    ensures
        (forall|k: int| 0 <= k < s.len() ==> s[k].0 != x) ==> value_at(s, x) == 0,
        (forall|k: int| 0 <= k < s.len() ==> 0 <= #[trigger] s[k].1) ==> 0 <= value_at(s, x),
    decreases s.len(),
{
    if s.len() > 0 {
        lemma_value_absent(s.drop_last(), x);
        assert forall|k: int| 0 <= k < s.len() - 1 implies s.drop_last()[k] == s[k] by {}
    }
}

proof fn lemma_edges_received(ins: Seq<(Seq<char>, int)>, outs: Seq<(Seq<char>, int)>, t: int, x: Seq<char>)
    requires
        0 < t,
        forall|k: int| 0 <= k < ins.len() ==> 0 <= #[trigger] ins[k].1,
        forall|k: int| 0 <= k < outs.len() ==> 0 <= #[trigger] outs[k].1,
        forall|a: int, b: int| 0 <= a < b < outs.len() ==> #[trigger] outs[a].0 != #[trigger] outs[b].0,
    ensures
        2 * t * received(edges(ins, outs, t), x) <= 2 * value_at(outs, x) * sum_values(ins) + ins.len() * t,
    decreases ins.len(),
{
    if ins.len() > 0 {
        let p = ins.drop_last();
        let f = ins.last();
        let v = value_at(outs, x);
        lemma_edges_received(p, outs, t, x);
        lemma_row_received(f, outs, t, x, v);
        lemma_received_concat(edges(p, outs, t), row(f, outs, t), x);
        lemma_share_bound(f.1, t, v);
        let rp = received(edges(p, outs, t), x);
        let rr = received(row(f, outs, t), x);
        assert(2 * t * rr <= 2 * f.1 * v + t) by (nonlinear_arith)
            requires
                rr == 0 || 2 * t * rr <= 2 * f.1 * v + t,
                0 <= f.1,
                0 <= v,
                0 < t,
        ;
        assert(2 * t * (rp + rr) <= 2 * v * (sum_values(p) + f.1) + (p.len() + 1) * t) by (nonlinear_arith)
            requires
                2 * t * rp <= 2 * v * sum_values(p) + p.len() * t,
                2 * t * rr <= 2 * f.1 * v + t,
        ;
    }
}

/// Summed over all senders, what an address receives exceeds its output value
/// by rounding alone, at most half a unit per sender: twice the received sum is
/// at most twice the address's output value plus the number of distinct input
/// addresses. (Without rounding the sum never exceeds the output value.)
pub proof fn law_received_within_rounding(ins: Seq<(Seq<char>, u64)>, outs: Seq<(Seq<char>, u64)>, x: Seq<char>)
    ensures
        2 * received(attribution(ins, outs), x) <= 2 * addr_total(outs, x) + addresses(ins).len(),
{
    if attributable(ins, outs) {
        let a = aggregated(ins);
        let b = aggregated(outs);
        let t = grand_total(ins);
        lemma_addresses_distinct(ins);
        lemma_addresses_distinct(outs);
        assert forall|k: int| 0 <= k < a.len() implies 0 <= #[trigger] a[k].1 by {
            lemma_addr_total_bound(ins, addresses(ins)[k]);
        }
        assert forall|k: int| 0 <= k < b.len() implies 0 <= #[trigger] b[k].1 by {
            lemma_addr_total_bound(outs, addresses(outs)[k]);
        }
        assert forall|i: int, j: int| 0 <= i < j < b.len() implies #[trigger] b[i].0 != #[trigger] b[j].0 by {
            assert(addresses(outs)[i] != addresses(outs)[j]);
        }
        lemma_edges_received(a, b, t, x);
        lemma_sum_aggregated(ins);
        lemma_value_at_totals(addresses(outs), outs, x);
        if !addresses(outs).contains(x) {
            lemma_no_address_zero(outs, x);
        }
        let v = addr_total(outs, x);
        let r = received(edges(a, b, t), x);
        let n = a.len() as int;
        assert(2 * r <= 2 * v + n) by (nonlinear_arith)
            requires
                2 * t * r <= 2 * v * t + n * t,
                0 < t,
        ;
    } else {
        assert(received(Seq::<(Seq<char>, Seq<char>, int)>::empty(), x) == 0);
        lemma_addr_total_bound(outs, x);
    }
}

} // verus!
