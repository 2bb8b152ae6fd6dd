//! Transactions of a UTXO-style chain as the indexer sees them, and the
//! per-transaction step of the indexer: index the outputs, resolve the inputs,
//! attribute value.

use vstd::prelude::*;
use crate::attribution::{
    Holding, Transfer, TxContext, attribute, attribution, grand_total, holdings_view, records_all,
};
use crate::endpoint::Network;
use crate::utxo_cache::{KeyView, UtxoCache, UtxoKey, ValueView};

verus! {

/// The Bitcoin network whose address encoding applies.
#[derive(Debug, Clone, Copy, PartialEq, Eq, Structural)]
pub enum ChainKind {
    Bitcoin,
    Testnet,
    Signet,
    Regtest,
}

/// The network that carries message magic `magic`.
pub open spec fn magic_network(magic: u32) -> Option<ChainKind> {
    if magic == 0xD9B4BEF9 {
        Some(ChainKind::Bitcoin)
    } else if magic == 0x0709110B {
        Some(ChainKind::Testnet)
    } else if magic == 0x40CF030A {
        Some(ChainKind::Signet)
    } else if magic == 0xDAB5BFFA {
        Some(ChainKind::Regtest)
    } else {
        None
    }
}

/// Relies on bitcoin::Network::from_magic: the four known magics, nothing else.
#[verifier::external_body]
fn network_for_magic(magic: u32) -> (r: Option<ChainKind>)
    ensures
        r == magic_network(magic),
{
    match bitcoin::Network::from_magic(magic) {
        Some(bitcoin::Network::Bitcoin) => Some(ChainKind::Bitcoin),
        Some(bitcoin::Network::Testnet) => Some(ChainKind::Testnet),
        Some(bitcoin::Network::Signet) => Some(ChainKind::Signet),
        Some(bitcoin::Network::Regtest) => Some(ChainKind::Regtest),
        None => None,
    }
}

/// The network a descriptor's chain id denotes: its low 32 bits read as a
/// message magic, the main network when the magic is unknown.
/// The network a descriptor's chain id denotes: its low 32 bits read as a
/// message magic, the main network when the magic is unknown.
pub open spec fn chain_of_id(chain_id: u64) -> ChainKind {
    match magic_network(chain_id as u32) {
        Some(c) => c,
        None => ChainKind::Bitcoin,
    }
}

/// The network that chain id `chain_id` selects.
pub fn chain_for_id(chain_id: u64) -> (r: ChainKind)
    ensures
        r == chain_of_id(chain_id),
{
    match network_for_magic(chain_id as u32) {
        Some(c) => c,
        None => ChainKind::Bitcoin,
    }
}

/// The address, in its string encoding for `chain`, that locking script
/// `script` pays to; none for scripts of no standard address form.
pub uninterp spec fn script_address_of(script: Seq<u8>, chain: ChainKind) -> Option<Seq<char>>;

pub open spec fn opt_view(o: Option<String>) -> Option<Seq<char>> {
    match o {
        Some(s) => Some(s@),
        None => None,
    }
}

/// Relies on bitcoin::Address::from_script and the address's string encoding:
/// the address that a locking script pays to, when it has one.
#[verifier::external_body]
fn script_address(script: &Vec<u8>, chain: ChainKind) -> (r: Option<String>)
    ensures
        opt_view(r) == script_address_of(script@, chain),
{
    let network = match chain {
        ChainKind::Bitcoin => bitcoin::Network::Bitcoin,
        ChainKind::Testnet => bitcoin::Network::Testnet,
        ChainKind::Signet => bitcoin::Network::Signet,
        ChainKind::Regtest => bitcoin::Network::Regtest,
    };
    let s = bitcoin::Script::from(script.clone());
    match bitcoin::Address::from_script(&s, network) {
        Ok(a) => Some(a.to_string()),
        Err(_) => None,
    }
}

/// A reference from an input to the output it spends.
pub struct TxInput {
    pub prev_txid: String,
    pub vout: u32,
    /// The null outpoint of a coinbase input.
    pub is_null: bool,
}

pub struct TxOutput {
    pub value: u64,
    pub script: Vec<u8>,
}

pub struct Tx {
    pub txid: String,
    pub inputs: Vec<TxInput>,
    pub outputs: Vec<TxOutput>,
}

/// A coinbase transaction has exactly one input, and that input is null.
pub open spec fn is_coinbase(tx: Tx) -> bool {
    tx.inputs@.len() == 1 && tx.inputs@[0].is_null
}

/// Whether `tx` is a coinbase transaction.
pub fn tx_is_coinbase(tx: &Tx) -> (r: bool)
    ensures
        r == is_coinbase(*tx),
{
    tx.inputs.len() == 1 && tx.inputs[0].is_null
}

/// The holding an output creates, when its script has an address.
pub open spec fn output_holding(o: TxOutput, chain: ChainKind) -> Option<(Seq<char>, u64)> {
    match script_address_of(o.script@, chain) {
        Some(a) => Some((a, o.value)),
        None => None,
    }
}

/// The holdings of the outputs that have an address, in output order.
pub open spec fn indexed(outs: Seq<TxOutput>, chain: ChainKind) -> Seq<(Seq<char>, u64)>
    decreases outs.len(),
{
    if outs.len() == 0 {
        Seq::empty()
    } else {
        let p = indexed(outs.drop_last(), chain);
        match output_holding(outs.last(), chain) {
            Some(h) => p.push(h),
            None => p,
        }
    }
}

/// The store after the outputs `outs` of transaction `txid` were indexed.
pub open spec fn after_outputs(
    m: Map<KeyView, ValueView>,
    network_id: u64,
    txid: Seq<char>,
    outs: Seq<TxOutput>,
    chain: ChainKind,
) -> Map<KeyView, ValueView>
    decreases outs.len(),
{
    if outs.len() == 0 {
        m
    } else {
        let p = after_outputs(m, network_id, txid, outs.drop_last(), chain);
        match output_holding(outs.last(), chain) {
            Some(h) => p.insert((network_id, txid, (outs.len() - 1) as u32), h),
            None => p,
        }
    }
}

/// What the node's copy of the spent transaction says of output `vout`.
pub open spec fn fallback(prior: Option<Tx>, vout: u32, chain: ChainKind) -> Option<(Seq<char>, u64)> {
    match prior {
        Some(p) => if vout < p.outputs@.len() {
            output_holding(p.outputs@[vout as int], chain)
        } else {
            None
        },
        None => None,
    }
}

pub open spec fn input_key(network_id: u64, i: TxInput) -> KeyView {
    (network_id, i.prev_txid@, i.vout)
}

/// One input resolved against store `m`: from the store (consuming the entry)
/// or else from the fetched spent transaction.
pub open spec fn resolve_input(
    m: Map<KeyView, ValueView>,
    network_id: u64,
    i: TxInput,
    prior: Option<Tx>,
    chain: ChainKind,
) -> (Option<(Seq<char>, u64)>, Map<KeyView, ValueView>) {
    if i.is_null {
        (None, m)
    } else if m.dom().contains(input_key(network_id, i)) {
        (Some(m[input_key(network_id, i)]), m.remove(input_key(network_id, i)))
    } else {
        (fallback(prior, i.vout, chain), m)
    }
}

/// The inputs resolved in order, and the store after them.
pub open spec fn resolve_all(
    m: Map<KeyView, ValueView>,
    network_id: u64,
    ins: Seq<TxInput>,
    priors: Seq<Option<Tx>>,
    chain: ChainKind,
) -> (Seq<(Seq<char>, u64)>, Map<KeyView, ValueView>)
    decreases ins.len(),
{
    if ins.len() == 0 {
        (Seq::empty(), m)
    } else {
        let (hs, m1) = resolve_all(m, network_id, ins.drop_last(), priors, chain);
        let (o, m2) = resolve_input(m1, network_id, ins.last(), priors[ins.len() - 1], chain);
        match o {
            Some(h) => (hs.push(h), m2),
            None => (hs, m2),
        }
    }
}


/// The holding of output `vout` of the fetched spent transaction, if any.
pub fn resolve_from_prior(prior: &Option<Tx>, vout: u32, chain: ChainKind) -> (r: Option<Holding>)
    ensures
        match r {
            Some(h) => fallback(*prior, vout, chain) == Some((h.0@, h.1)),
            None => fallback(*prior, vout, chain) is None,
        },
{
    match prior {
        Some(p) => {
            if (vout as usize) < p.outputs.len() {
                let o = &p.outputs[vout as usize];
                match script_address(&o.script, chain) {
                    Some(a) => Some((a, o.value)),
                    None => None,
                }
            } else {
                None
            }
        },
        None => None,
    }
}

/// The context of `tx` in block `block_hash` at `block_height`.
pub open spec fn tx_context(network_id: u64, block_height: u64, block_hash: String, tx: Tx) -> TxContext {
    TxContext { network_id, block_height, block_hash, tx_hash: tx.txid }
}

/// The indexer of one Bitcoin-style network.
pub struct Bitcoin {
    pub network: Network,
    /// The endpoint in use, for diagnostics.
    pub rpc: Option<String>,
    pub chain: ChainKind,
}

impl Bitcoin {

/// The indexer of `network`, connected through endpoint `rpc`.
pub fn new(network: Network, rpc: Option<String>) -> (r: Bitcoin)
    ensures
        r.network == network,
        r.rpc == rpc,
        r.chain == chain_of_id(network.chain_id),
{
    let chain = chain_for_id(network.chain_id);
    Bitcoin { network, rpc, chain }
}

/// A copy of the network's configuration.
pub fn get_network(&self) -> (r: Network)
    ensures
        r.network_id == self.network.network_id,
        r.name == self.network.name,
        r.chain_id == self.network.chain_id,
        r.rpc == self.network.rpc,
        r.rpc_bootstraps@ == self.network.rpc_bootstraps@,
{
    let mut boots: Vec<String> = Vec::new();
    let mut i: usize = 0;
    while i < self.network.rpc_bootstraps.len()
        invariant
            i <= self.network.rpc_bootstraps@.len(),
            boots@ =~= self.network.rpc_bootstraps@.take(i as int),
        decreases self.network.rpc_bootstraps@.len() - i,
    {
        boots.push(self.network.rpc_bootstraps[i].clone());
        assert(self.network.rpc_bootstraps@.take(i as int + 1) =~= self.network.rpc_bootstraps@.take(i as int).push(self.network.rpc_bootstraps@[i as int]));
        i = i + 1;
    }
    assert(self.network.rpc_bootstraps@.take(i as int) =~= self.network.rpc_bootstraps@);
    Network {
        network_id: self.network.network_id,
        name: self.network.name.clone(),
        chain_id: self.network.chain_id,
        rpc: self.network.rpc.clone(),
        rpc_bootstraps: boots,
    }
}

/// The endpoint in use.
pub fn get_rpc(&self) -> (r: Option<String>)
    ensures
        r == self.rpc,
{
    match &self.rpc {
        Some(u) => Some(u.clone()),
        None => None,
    }
}

/// Indexes the outputs of `tx` that have an address into `cache`, and returns
/// their holdings in output order.
pub fn index_transaction_outputs(&self, cache: &mut UtxoCache, tx: &Tx) -> (r: Vec<Holding>)
    requires
        old(cache).wf(),
    ensures
        final(cache).wf(),
        final(cache)@ == after_outputs(old(cache)@, self.network.network_id, tx.txid@, tx.outputs@, self.chain),
        holdings_view(r@) == indexed(tx.outputs@, self.chain),
{
    let mut r: Vec<Holding> = Vec::new();
    let mut i: usize = 0;
    while i < tx.outputs.len()
        invariant
            i <= tx.outputs@.len(),
            cache.wf(),
            cache@ == after_outputs(old(cache)@, self.network.network_id, tx.txid@, tx.outputs@.take(i as int), self.chain),
            holdings_view(r@) == indexed(tx.outputs@.take(i as int), self.chain),
        decreases tx.outputs@.len() - i,
    {
        let ghost outs = tx.outputs@.take(i as int + 1);
        assert(outs.drop_last() =~= tx.outputs@.take(i as int));
        assert(outs.last() == tx.outputs@[i as int]);
        let value = tx.outputs[i].value;
        match script_address(&tx.outputs[i].script, self.chain) {
            Some(a) => {
                let key = UtxoKey { network_id: self.network.network_id, txid: tx.txid.clone(), vout: i as u32 };
                let ghost r0 = r@;
                let ghost av = a@;
                cache.put(key, (a.clone(), value));
                r.push((a, value));
                assert(holdings_view(r@) =~= holdings_view(r0).push((av, value)));
            },
            None => {},
        }
        i = i + 1;
    }
    assert(tx.outputs@.take(tx.outputs@.len() as int) =~= tx.outputs@);
    r
}

/// For each input of `tx`, whether resolving it needs the spent transaction
/// from the node: it is not null and `cache` holds no entry for it.
pub fn missing_inputs(&self, cache: &UtxoCache, tx: &Tx) -> (r: Vec<bool>)
    requires
        cache.wf(),
    ensures
        r@.len() == tx.inputs@.len(),
        forall|k: int| 0 <= k < r@.len() ==> #[trigger] r@[k] == (!tx.inputs@[k].is_null
            && !cache@.dom().contains(input_key(self.network.network_id, tx.inputs@[k]))),
{
    let mut r: Vec<bool> = Vec::new();
    let mut i: usize = 0;
    while i < tx.inputs.len()
        invariant
            i <= tx.inputs@.len(),
            cache.wf(),
            r@.len() == i,
            forall|k: int| 0 <= k < i ==> #[trigger] r@[k] == (!tx.inputs@[k].is_null
                && !cache@.dom().contains(input_key(self.network.network_id, tx.inputs@[k]))),
        decreases tx.inputs@.len() - i,
    {
        let inp = &tx.inputs[i];
        if inp.is_null {
            r.push(false);
        } else {
            let key = UtxoKey { network_id: self.network.network_id, txid: inp.prev_txid.clone(), vout: inp.vout };
            let held = cache.contains(&key);
            r.push(!held);
        }
        i = i + 1;
    }
    r
}

/// Resolves one input: from `cache`, consuming the entry, else from `prior`,
/// the node's copy of the spent transaction.
pub fn get_utxo(&self, cache: &mut UtxoCache, input: &TxInput, prior: &Option<Tx>) -> (r: Option<Holding>)
    requires
        old(cache).wf(),
    ensures
        final(cache).wf(),
        ({
            let (o, m) = resolve_input(old(cache)@, self.network.network_id, *input, *prior, self.chain);
            &&& final(cache)@ == m
            &&& match r {
                Some(h) => o == Some((h.0@, h.1)),
                None => o is None,
            }
        }),
{
    if input.is_null {
        return None;
    }
    let key = UtxoKey { network_id: self.network.network_id, txid: input.prev_txid.clone(), vout: input.vout };
    match cache.take(&key) {
        Some(h) => Some(h),
        None => resolve_from_prior(prior, input.vout, self.chain),
    }
}

/// Processes one transaction of a block: indexes its outputs into `cache`,
/// and unless it is a coinbase resolves its inputs (from `cache`, consuming
/// entries, else from `priors`, the node's copies of the spent transactions
/// fetched for the inputs that `missing_inputs` named) and attributes value
/// between the resolved input and output addresses.
pub fn process_transaction_v1(
    &self,
    cache: &mut UtxoCache,
    block_height: u64,
    block_hash: &String,
    tx: &Tx,
    priors: &Vec<Option<Tx>>,
) -> (r: Vec<Transfer>)
    requires
        old(cache).wf(),
        priors@.len() == tx.inputs@.len(),
    ensures
        final(cache).wf(),
        is_coinbase(*tx) ==> r@.len() == 0 && final(cache)@ == after_outputs(
            old(cache)@,
            self.network.network_id,
            tx.txid@,
            tx.outputs@,
            self.chain,
        ),
        !is_coinbase(*tx) ==> {
            let m1 = after_outputs(old(cache)@, self.network.network_id, tx.txid@, tx.outputs@, self.chain);
            let (ins, m2) = resolve_all(m1, self.network.network_id, tx.inputs@, priors@, self.chain);
            let outs = indexed(tx.outputs@, self.chain);
            &&& final(cache)@ == m2
            &&& records_all(
                r@,
                tx_context(self.network.network_id, block_height, *block_hash, *tx),
                attribution(ins, outs),
                grand_total(outs),
            )
        },
{
    let outputs = self.index_transaction_outputs(cache, tx);
    if tx_is_coinbase(tx) {
        return Vec::new();
    }
    let ghost m1 = cache@;
    let mut inputs: Vec<Holding> = Vec::new();
    let mut i: usize = 0;
    while i < tx.inputs.len()
        invariant
            i <= tx.inputs@.len(),
            priors@.len() == tx.inputs@.len(),
            cache.wf(),
            (holdings_view(inputs@), cache@) == resolve_all(m1, self.network.network_id, tx.inputs@.take(i as int), priors@, self.chain),
        decreases tx.inputs@.len() - i,
    {
        let ghost ins = tx.inputs@.take(i as int + 1);
        assert(ins.drop_last() =~= tx.inputs@.take(i as int));
        assert(ins.last() == tx.inputs@[i as int]);
        let ghost r0 = inputs@;
        match self.get_utxo(cache, &tx.inputs[i], &priors[i]) {
            Some(h) => {
                let ghost hv = (h.0@, h.1);
                inputs.push(h);
                assert(holdings_view(inputs@) =~= holdings_view(r0).push(hv));
            },
            None => {},
        }
        i = i + 1;
    }
    assert(tx.inputs@.take(tx.inputs@.len() as int) =~= tx.inputs@);
    let ctx = TxContext {
        network_id: self.network.network_id,
        block_height,
        block_hash: block_hash.clone(),
        tx_hash: tx.txid.clone(),
    };
    attribute(&ctx, &inputs, &outputs)
}

}

/// The holdings of the inputs of `ins` as the node's copies `full` of the
/// spent transactions give them, in input order.
pub open spec fn node_resolved(ins: Seq<TxInput>, full: Seq<Option<Tx>>, chain: ChainKind) -> Seq<(Seq<char>, u64)>
    decreases ins.len(),
{
    if ins.len() == 0 {
        Seq::empty()
    } else {
        let p = node_resolved(ins.drop_last(), full, chain);
        let l = ins.last();
        if l.is_null {
            p
        } else {
            match fallback(full[ins.len() - 1], l.vout, chain) {
                Some(h) => p.push(h),
                None => p,
            }
        }
    }
}

/// No two inputs spend the same output.
pub open spec fn single_spend(network_id: u64, ins: Seq<TxInput>) -> bool {
    forall|a: int, b: int|
        0 <= a < b < ins.len() && !ins[a].is_null && !ins[b].is_null ==> input_key(network_id, #[trigger] ins[a])
            != input_key(network_id, #[trigger] ins[b])
}

/// Store `m` and fetched copies `priors` agree with the node's copies `full`:
/// what the store holds for an input is what the node says, and every input
/// the store misses was fetched.
pub open spec fn agrees_with_node(
    m: Map<KeyView, ValueView>,
    network_id: u64,
    ins: Seq<TxInput>,
    priors: Seq<Option<Tx>>,
    full: Seq<Option<Tx>>,
    chain: ChainKind,
) -> bool {
    forall|k: int|
        0 <= k < ins.len() && !#[trigger] ins[k].is_null ==> if m.dom().contains(input_key(network_id, ins[k])) {
            Some(m[input_key(network_id, ins[k])]) == fallback(full[k], ins[k].vout, chain)
        } else {
            priors[k] == full[k]
        }
}

proof fn lemma_untouched_kept(
    m: Map<KeyView, ValueView>,
    network_id: u64,
    ins: Seq<TxInput>,
    priors: Seq<Option<Tx>>,
    chain: ChainKind,
    key: KeyView,
)
    requires
        forall|i: int| 0 <= i < ins.len() && !ins[i].is_null ==> input_key(network_id, #[trigger] ins[i]) != key,
        priors.len() >= ins.len(),
    ensures
        resolve_all(m, network_id, ins, priors, chain).1.dom().contains(key) == m.dom().contains(key),
        m.dom().contains(key) ==> resolve_all(m, network_id, ins, priors, chain).1[key] == m[key],
    decreases ins.len(),
{
    if ins.len() > 0 {
        let p = ins.drop_last();
        assert forall|i: int| 0 <= i < p.len() && !p[i].is_null implies input_key(network_id, #[trigger] p[i]) != key by {
            assert(p[i] == ins[i]);
        }
        lemma_untouched_kept(m, network_id, p, priors, chain, key);
        assert(ins[ins.len() - 1] == ins.last());
    }
}

proof fn lemma_resolves_as_node(
    m: Map<KeyView, ValueView>,
    network_id: u64,
    ins: Seq<TxInput>,
    priors: Seq<Option<Tx>>,
    full: Seq<Option<Tx>>,
    chain: ChainKind,
)
    requires
        priors.len() >= ins.len(),
        full.len() >= ins.len(),
        single_spend(network_id, ins),
        agrees_with_node(m, network_id, ins, priors, full, chain),
    ensures
        resolve_all(m, network_id, ins, priors, chain).0 == node_resolved(ins, full, chain),
    decreases ins.len(),
{
    if ins.len() > 0 {
        let p = ins.drop_last();
        let n = ins.len() - 1;
        let l = ins.last();
        assert(l == ins[n]);
        assert(single_spend(network_id, p)) by {
            assert forall|a: int, b: int| 0 <= a < b < p.len() && !p[a].is_null && !p[b].is_null implies input_key(
                network_id,
                #[trigger] p[a],
            ) != input_key(network_id, #[trigger] p[b]) by {
                assert(p[a] == ins[a] && p[b] == ins[b]);
            }
        }
        assert(agrees_with_node(m, network_id, p, priors, full, chain)) by {
            assert forall|k: int| 0 <= k < p.len() && !#[trigger] p[k].is_null implies (if m.dom().contains(
                input_key(network_id, p[k]),
            ) {
                Some(m[input_key(network_id, p[k])]) == fallback(full[k], p[k].vout, chain)
            } else {
                priors[k] == full[k]
            }) by {
                assert(p[k] == ins[k]);
                assert(!ins[k].is_null);
            }
        }
        lemma_resolves_as_node(m, network_id, p, priors, full, chain);
        if !l.is_null {
            let key = input_key(network_id, l);
            assert forall|i: int| 0 <= i < p.len() && !p[i].is_null implies input_key(network_id, #[trigger] p[i]) != key by {
                assert(p[i] == ins[i]);
            }
            lemma_untouched_kept(m, network_id, p, priors, chain, key);
            assert(!ins[n].is_null);
        }
    }
}

/// Resolution does not depend on what the store still holds: as long as its
/// entries agree with the node and the inputs it misses were fetched, the
/// inputs resolve to what the node's copies say. So processing a block again
/// (its outputs' entries consumed by the first run, the spent transactions
/// fetched instead) resolves the same inputs, indexes the same outputs and
/// attributes the same transfers.
pub proof fn law_replay_same_transfers(
    m1: Map<KeyView, ValueView>,
    priors1: Seq<Option<Tx>>,
    m2: Map<KeyView, ValueView>,
    priors2: Seq<Option<Tx>>,
    full: Seq<Option<Tx>>,
    network_id: u64,
    chain: ChainKind,
    tx: Tx,
)
    requires
        priors1.len() == tx.inputs@.len(),
        priors2.len() == tx.inputs@.len(),
        full.len() == tx.inputs@.len(),
        single_spend(network_id, tx.inputs@),
        agrees_with_node(
            after_outputs(m1, network_id, tx.txid@, tx.outputs@, chain),
            network_id,
            tx.inputs@,
            priors1,
            full,
            chain,
        ),
        agrees_with_node(
            after_outputs(m2, network_id, tx.txid@, tx.outputs@, chain),
            network_id,
            tx.inputs@,
            priors2,
            full,
            chain,
        ),
    ensures
        ({
            let a1 = after_outputs(m1, network_id, tx.txid@, tx.outputs@, chain);
            let a2 = after_outputs(m2, network_id, tx.txid@, tx.outputs@, chain);
            let ins1 = resolve_all(a1, network_id, tx.inputs@, priors1, chain).0;
            let ins2 = resolve_all(a2, network_id, tx.inputs@, priors2, chain).0;
            let outs = indexed(tx.outputs@, chain);
            &&& ins1 == ins2
            &&& attribution(ins1, outs) == attribution(ins2, outs)
        }),
{
    let a1 = after_outputs(m1, network_id, tx.txid@, tx.outputs@, chain);
    let a2 = after_outputs(m2, network_id, tx.txid@, tx.outputs@, chain);
    lemma_resolves_as_node(a1, network_id, tx.inputs@, priors1, full, chain);
    lemma_resolves_as_node(a2, network_id, tx.inputs@, priors2, full, chain);
}

} // verus!
