//! The synchronisation rules: how far an address space is scanned (the gap
//! limit), how the outputs that the chain backend reports are reconciled
//! with those already known, what the balance is, and how a round's results
//! are committed to the wallet state all at once or not at all.
use vstd::prelude::*;
use crate::text::bytes_equal;
use crate::descriptor::{Descriptor, descriptor_wf};
use crate::keys::{Network, DerivationError, derive_address, descriptor_address};
use crate::path::HARDENED_LIMIT;

verus! {

/// An output that the wallet owns or has owned. Outputs are never removed:
/// one that has been spent is kept and flagged.
#[derive(Clone, Debug)]
pub struct Utxo {
    pub txid: Vec<u8>,
    pub vout: u32,
    pub amount: u64,
    pub script: Vec<u8>,
    /// The height of the block that confirmed it, or none while unconfirmed.
    pub height: Option<u32>,
    pub spent: bool,
}

/// An unspent output as the chain backend reports it.
#[derive(Clone, Debug)]
pub struct UnspentOutput {
    pub txid: Vec<u8>,
    pub vout: u32,
    pub amount: u64,
    pub script: Vec<u8>,
    pub height: Option<u32>,
}

pub struct UtxoView {
    pub txid: Seq<u8>,
    pub vout: u32,
    pub amount: u64,
    pub script: Seq<u8>,
    pub height: Option<u32>,
    pub spent: bool,
}

pub struct OutputView {
    pub txid: Seq<u8>,
    pub vout: u32,
    pub amount: u64,
    pub script: Seq<u8>,
    pub height: Option<u32>,
}

impl View for Utxo {
    type V = UtxoView;

    open spec fn view(&self) -> UtxoView {
        UtxoView {
            txid: self.txid@,
            vout: self.vout,
            amount: self.amount,
            script: self.script@,
            height: self.height,
            spent: self.spent,
        }
    }
}

impl View for UnspentOutput {
    type V = OutputView;

    open spec fn view(&self) -> OutputView {
        OutputView {
            txid: self.txid@,
            vout: self.vout,
            amount: self.amount,
            script: self.script@,
            height: self.height,
        }
    }
}

pub open spec fn utxos_view(v: Seq<Utxo>) -> Seq<UtxoView> {
    v.map_values(|u: Utxo| u@)
}

pub open spec fn outputs_view(v: Seq<UnspentOutput>) -> Seq<OutputView> {
    v.map_values(|o: UnspentOutput| o@)
}

// ---------------------------------------------------------------- gap limit

/// The position of the last `true` in `used`, or -1.
pub open spec fn last_used(used: Seq<bool>) -> int
    decreases used.len(),
{
    if used.len() == 0 {
        -1
    } else if used.last() {
        used.len() - 1
    } else {
        last_used(used.drop_last())
    }
}

/// Whether the scan has seen `gap` unused addresses after the last used one.
pub open spec fn scan_exhausted(used: Seq<bool>, gap: nat) -> bool {
    used.len() - (last_used(used) + 1) >= gap
}

/// The first index after the last used one (the start when none was used).
pub open spec fn scan_next_index(start: u32, used: Seq<bool>) -> int {
    start + last_used(used) + 1
}

proof fn lemma_last_used_bounds(used: Seq<bool>)
    ensures
        -1 <= last_used(used) < used.len(),
        last_used(used) >= 0 ==> used[last_used(used)],
        forall|i: int| last_used(used) < i < used.len() ==> !#[trigger] used[i],
    decreases used.len(),
{
    if used.len() > 0 {
        lemma_last_used_bounds(used.drop_last());
        assert(forall|i: int| 0 <= i < used.len() - 1 ==> used.drop_last()[i] == used[i]);
    }
}

/// The scan of one address space in one round: where it started, and for
/// each address since, whether the backend reported it used.
pub struct AddressScan {
    pub start: u32,
    pub used: Vec<bool>,
}

impl AddressScan {
    pub fn new(start: u32) -> (r: AddressScan)
        ensures
            r.start == start,
            r.used@ == Seq::<bool>::empty(),
    {
        AddressScan { start, used: Vec::new() }
    }

    /// The index of the next address to ask the backend about.
    pub fn next_to_query(&self) -> (r: u32)
        requires
            self.start + self.used@.len() <= u32::MAX,
        ensures
            r == self.start + self.used@.len(),
    {
        self.start + self.used.len() as u32
    }

    /// Records whether the address at `next_to_query` was used.
    pub fn observe(&mut self, used: bool)
        ensures
            final(self).start == old(self).start,
            final(self).used@ == old(self).used@.push(used),
    {
        self.used.push(used);
    }

    /// The position of the last used address among those scanned, if any.
    pub fn last_active(&self) -> (r: Option<usize>)
        ensures
            match r {
                Some(i) => last_used(self.used@) == i && i < self.used.len(),
                None => last_used(self.used@) == -1,
            },
    {
        let mut i = self.used.len();
        assert(self.used@.take(i as int) =~= self.used@);
        while i > 0
            invariant
                i <= self.used@.len(),
                last_used(self.used@) == last_used(self.used@.take(i as int)),
            decreases i,
        {
            assert(self.used@.take(i as int).drop_last() =~= self.used@.take(i - 1));
            if self.used[i - 1] {
                return Some(i - 1);
            }
            i -= 1;
        }
        None
    }

    /// Whether `gap` unused addresses have been seen after the last used
    /// one, so that the address space is done for this round.
    pub fn is_exhausted(&self, gap: u32) -> (r: bool)
        ensures
            r == scan_exhausted(self.used@, gap as nat),
    {
        let seen = match self.last_active() {
            Some(i) => i + 1,
            None => 0,
        };
        proof {
            lemma_last_used_bounds(self.used@);
        }
        self.used.len() - seen >= gap as usize
    }

    /// The derivation index to persist after this round: one past the last
    /// used address, never the end of the lookahead window.
    pub fn next_index(&self) -> (r: u32)
        requires
            self.start + self.used@.len() <= u32::MAX,
        ensures
            r == scan_next_index(self.start, self.used@),
    {
        proof {
            lemma_last_used_bounds(self.used@);
        }
        match self.last_active() {
            Some(i) => self.start + i as u32 + 1,
            None => self.start,
        }
    }
}

/// When the addresses up to position `k` were scanned and the last one used
/// is at `k`, the persisted index is `start + k + 1`, whatever number of
/// unused addresses the lookahead went through after it; so every address
/// past `k` is scanned again in the next round.
pub proof fn lemma_gap_cursor(start: u32, used: Seq<bool>, k: int, gap: nat)
    requires
        0 <= k < used.len(),
        used[k],
        forall|i: int| k < i < used.len() ==> !#[trigger] used[i],
        scan_exhausted(used, gap),
    ensures
        scan_next_index(start, used) == start + k + 1,
        scan_next_index(start, used) + gap <= start + used.len(),
{
    lemma_last_used_bounds(used);
    if last_used(used) < k {
        assert(!used[k]);
    }
}

/// How many addresses a round scans, given the backend's answers for the
/// addresses from the start on: it stops as soon as `gap` unused addresses
/// follow the last used one, or when the answers run out.
pub fn scan_round(used: &Vec<bool>, gap: u32) -> (r: usize)
    ensures
        r <= used@.len(),
        r < used@.len() ==> scan_exhausted(used@.take(r as int), gap as nat),
        forall|m: int| 0 <= m < r ==> !scan_exhausted(#[trigger] used@.take(m), gap as nat),
{
    let mut scan = AddressScan::new(0);
    let mut i: usize = 0;
    while i < used.len()
        invariant
            i <= used@.len(),
            scan.used@ == used@.take(i as int),
            forall|m: int| 0 <= m < i ==> !scan_exhausted(#[trigger] used@.take(m), gap as nat),
        decreases used@.len() - i,
    {
        if scan.is_exhausted(gap) {
            return i;
        }
        scan.observe(used[i]);
        i += 1;
        assert(scan.used@ =~= used@.take(i as int));
    }
    i
}

/// A round that stops after `n` addresses has scanned every used address
/// that lies within `gap` of the start, or within `gap` after a used
/// address that it scanned. So a chain of funded addresses, each within the
/// gap of the one before, is found however far it reaches.
pub proof fn lemma_scan_reaches(used: Seq<bool>, gap: nat, n: int, i: int, j: int)
    requires
        0 <= n <= used.len(),
        n < used.len() ==> scan_exhausted(used.take(n), gap),
        0 <= j < used.len(),
        used[j],
        j < gap || (0 <= i < n && used[i] && i < j && j - i <= gap),
    ensures
        j < n,
{
    if n < used.len() {
        let t = used.take(n);
        lemma_last_used_bounds(t);
        if 0 <= i < n && used[i] && last_used(t) < i {
            assert(t[i] == used[i]);
        }
    }
}

// ----------------------------------------------------------- reconciliation

/// The position of the first output in `b` at the outpoint `(t, v)`, or -1.
pub open spec fn first_match(b: Seq<OutputView>, t: Seq<u8>, v: u32) -> int
    decreases b.len(),
{
    if b.len() == 0 {
        -1
    } else if first_match(b.drop_last(), t, v) >= 0 {
        first_match(b.drop_last(), t, v)
    } else if b.last().txid == t && b.last().vout == v {
        b.len() - 1
    } else {
        -1
    }
}

/// A known output after a round: unspent with the reported height while the
/// backend still reports it, flagged spent once it does not.
pub open spec fn refreshed(u: UtxoView, b: Seq<OutputView>) -> UtxoView {
    let m = first_match(b, u.txid, u.vout);
    if m >= 0 {
        UtxoView {
            txid: u.txid,
            vout: u.vout,
            amount: u.amount,
            script: u.script,
            height: b[m].height,
            spent: false,
        }
    } else {
        UtxoView {
            txid: u.txid,
            vout: u.vout,
            amount: u.amount,
            script: u.script,
            height: u.height,
            spent: true,
        }
    }
}

pub open spec fn as_utxo(o: OutputView) -> UtxoView {
    UtxoView {
        txid: o.txid,
        vout: o.vout,
        amount: o.amount,
        script: o.script,
        height: o.height,
        spent: false,
    }
}

/// Whether an output at the outpoint of `o` is among `k`.
pub open spec fn known(k: Seq<UtxoView>, o: OutputView) -> bool {
    exists|i: int| 0 <= i < k.len() && (#[trigger] k[i]).txid == o.txid && k[i].vout == o.vout
}

/// The outputs of `b` that `k` does not know, each outpoint once, in the
/// order of their first report.
pub open spec fn fresh(k: Seq<UtxoView>, b: Seq<OutputView>) -> Seq<UtxoView>
    decreases b.len(),
{
    if b.len() == 0 {
        Seq::empty()
    } else {
        let o = b.last();
        fresh(k, b.drop_last()) + if !known(k, o) && first_match(b.drop_last(), o.txid, o.vout)
            < 0 {
            seq![as_utxo(o)]
        } else {
            Seq::empty()
        }
    }
}

/// The known outputs refreshed against the backend's report, followed by
/// the newly reported ones.
pub open spec fn reconciled(k: Seq<UtxoView>, b: Seq<OutputView>) -> Seq<UtxoView> {
    k.map_values(|u: UtxoView| refreshed(u, b)) + fresh(k, b)
}

proof fn lemma_first_match_prefix(b: Seq<OutputView>, t: Seq<u8>, v: u32, n: int)
    requires
        0 <= n <= b.len(),
        first_match(b.take(n), t, v) >= 0,
    ensures
        first_match(b, t, v) == first_match(b.take(n), t, v),
    decreases b.len() - n,
{
    if n < b.len() {
        assert(b.take(n + 1).drop_last() =~= b.take(n));
        lemma_first_match_prefix(b, t, v, n + 1);
    } else {
        assert(b.take(n) =~= b);
    }
}

proof fn lemma_first_match_bounds(b: Seq<OutputView>, t: Seq<u8>, v: u32)
    ensures
        -1 <= first_match(b, t, v) < b.len(),
        first_match(b, t, v) >= 0 ==> b[first_match(b, t, v)].txid == t && b[first_match(
            b,
            t,
            v,
        )].vout == v,
        first_match(b, t, v) < 0 ==> forall|i: int|
            0 <= i < b.len() ==> !((#[trigger] b[i]).txid == t && b[i].vout == v),
    decreases b.len(),
{
    if b.len() > 0 {
        lemma_first_match_bounds(b.drop_last(), t, v);
        assert forall|i: int| 0 <= i < b.len() - 1 implies b.drop_last()[i] == b[i] by {}
    }
}

/// The position of the first output in `b[0..end]` at `(t, v)`.
fn find_output(b: &Vec<UnspentOutput>, end: usize, t: &Vec<u8>, v: u32) -> (r: Option<usize>)
    requires
        end <= b@.len(),
    ensures
        match r {
            Some(i) => i < end && first_match(outputs_view(b@).take(end as int), t@, v) == i,
            None => first_match(outputs_view(b@).take(end as int), t@, v) == -1,
        },
{
    let ghost bv = outputs_view(b@);
    let mut j: usize = 0;
    while j < end
        invariant
            j <= end <= b@.len(),
            bv == outputs_view(b@),
            first_match(bv.take(j as int), t@, v) == -1,
        decreases end - j,
    {
        assert(bv.take(j + 1).drop_last() =~= bv.take(j as int));
        if b[j].vout == v && bytes_equal(&b[j].txid, t) {
            assert(bv.take(j + 1).last() == b@[j as int]@);
            proof {
                assert(bv.take(end as int).take(j + 1) =~= bv.take(j + 1));
                lemma_first_match_prefix(bv.take(end as int), t@, v, j + 1);
            }
            return Some(j);
        }
        assert(bv.take(j + 1).last() == b@[j as int]@);
        j += 1;
    }
    None
}

fn is_known(k: &Vec<Utxo>, o: &UnspentOutput) -> (r: bool)
    ensures
        r == known(utxos_view(k@), o@),
{
    let ghost kv = utxos_view(k@);
    let mut i: usize = 0;
    while i < k.len()
        invariant
            i <= k@.len(),
            kv == utxos_view(k@),
            forall|j: int| 0 <= j < i ==> !((#[trigger] kv[j]).txid == o@.txid && kv[j].vout == o.vout),
        decreases k@.len() - i,
    {
        if k[i].vout == o.vout && bytes_equal(&k[i].txid, &o.txid) {
            assert(kv[i as int].txid == o@.txid);
            return true;
        }
        i += 1;
    }
    false
}

fn clone_bytes(v: &Vec<u8>) -> (r: Vec<u8>)
    ensures
        r@ == v@,
{
    let mut r: Vec<u8> = Vec::new();
    let mut i: usize = 0;
    while i < v.len()
        invariant
            i <= v@.len(),
            r@ == v@.take(i as int),
        decreases v@.len() - i,
    {
        r.push(v[i]);
        i += 1;
        assert(r@ =~= v@.take(i as int));
    }
    assert(v@.take(i as int) =~= v@);
    r
}

/// Reconciles the known outputs with the backend's current unspent set:
/// known outputs that it still reports get its height and stay unspent,
/// those that it no longer reports are flagged spent (never removed), and
/// outputs that are new to the wallet are added as unspent.
pub fn reconcile(known_utxos: &Vec<Utxo>, backend: &Vec<UnspentOutput>) -> (r: Vec<Utxo>)
    ensures
        utxos_view(r@) == reconciled(utxos_view(known_utxos@), outputs_view(backend@)),
{
    let ghost kv = utxos_view(known_utxos@);
    let ghost bv = outputs_view(backend@);
    let mut out: Vec<Utxo> = Vec::new();
    let mut i: usize = 0;
    assert(bv.take(backend@.len() as int) =~= bv);
    while i < known_utxos.len()
        invariant
            i <= known_utxos@.len(),
            kv == utxos_view(known_utxos@),
            bv == outputs_view(backend@),
            bv.take(backend@.len() as int) == bv,
            utxos_view(out@) == kv.take(i as int).map_values(|u: UtxoView| refreshed(u, bv)),
        decreases known_utxos@.len() - i,
    {
        let u = &known_utxos[i];
        let m = find_output(backend, backend.len(), &u.txid, u.vout);
        let n = match m {
            Some(j) => Utxo {
                txid: clone_bytes(&u.txid),
                vout: u.vout,
                amount: u.amount,
                script: clone_bytes(&u.script),
                height: backend[j].height,
                spent: false,
            },
            None => Utxo {
                txid: clone_bytes(&u.txid),
                vout: u.vout,
                amount: u.amount,
                script: clone_bytes(&u.script),
                height: u.height,
                spent: true,
            },
        };
        assert(n@ == refreshed(kv[i as int], bv));
        let ghost prev = out@;
        out.push(n);
        assert(utxos_view(out@) =~= utxos_view(prev).push(n@));
        assert(kv.take(i + 1).map_values(|u: UtxoView| refreshed(u, bv)) =~= kv.take(i as int).map_values(
            |u: UtxoView| refreshed(u, bv),
        ).push(refreshed(kv[i as int], bv)));
        i += 1;
        assert(utxos_view(out@) =~= kv.take(i as int).map_values(|u: UtxoView| refreshed(u, bv)));
    }
    assert(kv.take(i as int) =~= kv);
    let ghost head = utxos_view(out@);
    let mut j: usize = 0;
    while j < backend.len()
        invariant
            j <= backend@.len(),
            kv == utxos_view(known_utxos@),
            bv == outputs_view(backend@),
            head == kv.map_values(|u: UtxoView| refreshed(u, bv)),
            utxos_view(out@) == head + fresh(kv, bv.take(j as int)),
        decreases backend@.len() - j,
    {
        let o = &backend[j];
        assert(bv.take(j + 1).drop_last() =~= bv.take(j as int));
        assert(bv.take(j + 1).last() == o@);
        let first = find_output(backend, j, &o.txid, o.vout);
        let ghost prev = out@;
        if first.is_none() && !is_known(known_utxos, o) {
            let n = Utxo {
                txid: clone_bytes(&o.txid),
                vout: o.vout,
                amount: o.amount,
                script: clone_bytes(&o.script),
                height: o.height,
                spent: false,
            };
            assert(n@ == as_utxo(o@));
            out.push(n);
            assert(utxos_view(out@) =~= utxos_view(prev).push(n@));
        } else {
            assert(utxos_view(out@) =~= utxos_view(prev));
        }
        j += 1;
        assert(utxos_view(out@) =~= head + fresh(kv, bv.take(j as int)));
    }
    assert(bv.take(j as int) =~= bv);
    out
}

// ------------------------------------------------------------------ balance

/// Whether an output counts towards the balance: unspent and not dust.
pub open spec fn counted(u: UtxoView, dust_limit: u64) -> bool {
    !u.spent && u.amount >= dust_limit
}

pub open spec fn total_of(k: Seq<UtxoView>, dust_limit: u64) -> nat
    decreases k.len(),
{
    if k.len() == 0 {
        0
    } else {
        total_of(k.drop_last(), dust_limit) + if counted(k.last(), dust_limit) {
            k.last().amount as nat
        } else {
            0
        }
    }
}

pub open spec fn confirmed_of(k: Seq<UtxoView>, dust_limit: u64) -> nat
    decreases k.len(),
{
    if k.len() == 0 {
        0
    } else {
        confirmed_of(k.drop_last(), dust_limit) + if counted(k.last(), dust_limit)
            && k.last().height is Some {
            k.last().amount as nat
        } else {
            0
        }
    }
}

/// A balance in satoshis: confirmed outputs only, and all outputs.
#[derive(Clone, Copy, Debug, PartialEq, Eq, Structural)]
pub struct Balance {
    pub confirmed: u128,
    pub total: u128,
}

/// The sums of the unspent outputs that are not dust (`amount` at least
/// `dust_limit`): those confirmed, and all of them.
pub fn balance(utxos: &Vec<Utxo>, dust_limit: u64) -> (r: Balance)
    ensures
        r.total == total_of(utxos_view(utxos@), dust_limit),
        r.confirmed == confirmed_of(utxos_view(utxos@), dust_limit),
{
    let ghost kv = utxos_view(utxos@);
    let mut total: u128 = 0;
    let mut confirmed: u128 = 0;
    let mut i: usize = 0;
    while i < utxos.len()
        invariant
            i <= utxos.len(),
            kv == utxos_view(utxos@),
            total == total_of(kv.take(i as int), dust_limit),
            confirmed == confirmed_of(kv.take(i as int), dust_limit),
            total <= i * 0xFFFF_FFFF_FFFF_FFFFu128,
            confirmed <= total,
        decreases utxos@.len() - i,
    {
        assert(kv.take(i + 1).drop_last() =~= kv.take(i as int));
        assert(kv.take(i + 1).last() == utxos@[i as int]@);
        let u = &utxos[i];
        if !u.spent && u.amount >= dust_limit {
            total = total + u.amount as u128;
            if u.height.is_some() {
                confirmed = confirmed + u.amount as u128;
            }
        }
        i += 1;
    }
    assert(kv.take(i as int) =~= kv);
    Balance { confirmed, total }
}

proof fn lemma_fresh_refreshed(k: Seq<UtxoView>, b: Seq<OutputView>)
    ensures
        forall|i: int|
            0 <= i < fresh(k, b).len() ==> refreshed(#[trigger] fresh(k, b)[i], b) == fresh(k, b)[i]
                && !fresh(k, b)[i].spent,
    decreases b.len(),
{
    if b.len() > 0 {
        let bp = b.drop_last();
        lemma_fresh_refreshed(k, bp);
        let fp = fresh(k, bp);
        let f = fresh(k, b);
        assert forall|i: int| 0 <= i < f.len() implies refreshed(#[trigger] f[i], b) == f[i]
            && !f[i].spent by {
            if i < fp.len() {
                assert(f[i] == fp[i]);
                assert(refreshed(fp[i], bp) == fp[i]);
                let m = first_match(bp, fp[i].txid, fp[i].vout);
                assert(m >= 0);
                lemma_first_match_bounds(bp, fp[i].txid, fp[i].vout);
                assert(bp[m] == b[m]);
            } else {
                let o = b.last();
                assert(f[i] == as_utxo(o));
            }
        }
    }
}

proof fn lemma_fresh_covers(k: Seq<UtxoView>, b: Seq<OutputView>)
    ensures
        forall|j: int| 0 <= j < b.len() ==> known(k, #[trigger] b[j]) || known(fresh(k, b), b[j]),
    decreases b.len(),
{
    if b.len() > 0 {
        let bp = b.drop_last();
        lemma_fresh_covers(k, bp);
        let fp = fresh(k, bp);
        let f = fresh(k, b);
        assert forall|j: int| 0 <= j < b.len() implies known(k, #[trigger] b[j]) || known(f, b[j]) by {
            if j < bp.len() {
                assert(bp[j] == b[j]);
                if known(fp, bp[j]) {
                    let w = choose|i: int|
                        0 <= i < fp.len() && (#[trigger] fp[i]).txid == bp[j].txid && fp[i].vout
                            == bp[j].vout;
                    assert(f[w] == fp[w]);
                }
            } else {
                let o = b.last();
                if !known(k, o) {
                    let m = first_match(bp, o.txid, o.vout);
                    lemma_first_match_bounds(bp, o.txid, o.vout);
                    if m < 0 {
                        assert(f[fp.len() as int] == as_utxo(o));
                    } else {
                        assert(bp[m].txid == o.txid && bp[m].vout == o.vout);
                        if known(k, bp[m]) {
                            let w = choose|i: int|
                                0 <= i < k.len() && (#[trigger] k[i]).txid == bp[m].txid && k[i].vout
                                    == bp[m].vout;
                            assert(k[w].txid == o.txid);
                        } else {
                            assert(known(fp, bp[m]));
                            let w = choose|i: int|
                                0 <= i < fp.len() && (#[trigger] fp[i]).txid == bp[m].txid
                                    && fp[i].vout == bp[m].vout;
                            assert(f[w] == fp[w]);
                        }
                    }
                }
            }
        }
    }
}

proof fn lemma_fresh_empty(k: Seq<UtxoView>, b: Seq<OutputView>)
    requires
        forall|j: int| 0 <= j < b.len() ==> known(k, #[trigger] b[j]),
    ensures
        fresh(k, b) == Seq::<UtxoView>::empty(),
    decreases b.len(),
{
    if b.len() > 0 {
        let bp = b.drop_last();
        assert forall|j: int| 0 <= j < bp.len() implies known(k, #[trigger] bp[j]) by {
            assert(bp[j] == b[j]);
        }
        lemma_fresh_empty(k, bp);
        assert(known(k, b[b.len() - 1]));
        assert(fresh(k, b) =~= Seq::<UtxoView>::empty());
    }
}

/// Reconciling again with the same report changes nothing.
pub proof fn lemma_reconcile_idempotent(k: Seq<UtxoView>, b: Seq<OutputView>)
    ensures
        reconciled(reconciled(k, b), b) == reconciled(k, b),
{
    let m = k.map_values(|u: UtxoView| refreshed(u, b));
    let f = fresh(k, b);
    let r = reconciled(k, b);
    lemma_fresh_refreshed(k, b);
    lemma_fresh_covers(k, b);
    assert forall|j: int| 0 <= j < b.len() implies known(r, #[trigger] b[j]) by {
        if known(k, b[j]) {
            let w = choose|i: int|
                0 <= i < k.len() && (#[trigger] k[i]).txid == b[j].txid && k[i].vout == b[j].vout;
            assert(r[w] == m[w]);
        } else {
            let w = choose|i: int|
                0 <= i < f.len() && (#[trigger] f[i]).txid == b[j].txid && f[i].vout == b[j].vout;
            assert(r[m.len() + w] == f[w]);
        }
    }
    lemma_fresh_empty(r, b);
    assert(r.map_values(|u: UtxoView| refreshed(u, b)) =~= r) by {
        assert forall|i: int| 0 <= i < r.len() implies refreshed(r[i], b) == r[i] by {
            if i < m.len() {
                assert(r[i] == m[i]);
            } else {
                assert(r[i] == f[i - m.len()]);
            }
        }
    }
    assert(reconciled(r, b) =~= r);
}

/// Committing the same round twice leaves the state as committing it once:
/// the same outputs and the same derivation indices.
pub proof fn lemma_round_idempotent(s: WalletStateView, r: RoundView)
    ensures
        after_round(after_round(s, r), r) == after_round(s, r),
{
    lemma_reconcile_idempotent(s.utxos, r.unspent);
}

// -------------------------------------------------------------- wallet state

/// How a call to the chain backend failed.
#[derive(Clone, Copy, Debug, PartialEq, Eq, Structural)]
pub enum BackendError {
    /// The network or a timeout: worth retrying.
    Transient,
    /// A malformed or unexpected response: fatal to the round.
    Protocol,
}

/// The committed state of a wallet: the next receive and change derivation
/// indices, and every output it has owned.
#[derive(Clone, Debug)]
pub struct WalletState {
    pub receive_index: u32,
    pub change_index: u32,
    pub utxos: Vec<Utxo>,
}

/// What one synchronisation round found: the indices that its scans reached
/// and the backend's unspent outputs for the scanned scripts.
#[derive(Clone, Debug)]
pub struct RoundResult {
    pub receive_next: u32,
    pub change_next: u32,
    pub unspent: Vec<UnspentOutput>,
}

pub struct WalletStateView {
    pub receive_index: u32,
    pub change_index: u32,
    pub utxos: Seq<UtxoView>,
}

pub struct RoundView {
    pub receive_next: u32,
    pub change_next: u32,
    pub unspent: Seq<OutputView>,
}

impl View for WalletState {
    type V = WalletStateView;

    open spec fn view(&self) -> WalletStateView {
        WalletStateView {
            receive_index: self.receive_index,
            change_index: self.change_index,
            utxos: utxos_view(self.utxos@),
        }
    }
}

impl View for RoundResult {
    type V = RoundView;

    open spec fn view(&self) -> RoundView {
        RoundView {
            receive_next: self.receive_next,
            change_next: self.change_next,
            unspent: outputs_view(self.unspent@),
        }
    }
}

pub open spec fn max_u32(a: u32, b: u32) -> u32 {
    if a >= b {
        a
    } else {
        b
    }
}

/// The state after a round is committed: indices never go back, and the
/// outputs are reconciled with the round's report.
pub open spec fn after_round(s: WalletStateView, r: RoundView) -> WalletStateView {
    WalletStateView {
        receive_index: max_u32(s.receive_index, r.receive_next),
        change_index: max_u32(s.change_index, r.change_next),
        utxos: reconciled(s.utxos, r.unspent),
    }
}

impl WalletState {
    pub fn new() -> (r: WalletState)
        ensures
            r@.receive_index == 0,
            r@.change_index == 0,
            r@.utxos == Seq::<UtxoView>::empty(),
    {
        let r = WalletState { receive_index: 0, change_index: 0, utxos: Vec::new() };
        assert(r@.utxos =~= Seq::<UtxoView>::empty());
        r
    }

    /// Commits the outcome of a round as one transaction: a round that
    /// completed is applied whole, and a round that failed leaves the
    /// state exactly as it was.
    pub fn commit_round(&mut self, outcome: Result<RoundResult, BackendError>) -> (r: Result<
        (),
        BackendError,
    >)
        ensures
            match outcome {
                Ok(round) => r is Ok && final(self)@ == after_round(old(self)@, round@),
                Err(e) => r == Err::<(), BackendError>(e) && final(self)@ == old(self)@,
            },
    {
        match outcome {
            Ok(round) => {
                let utxos = reconcile(&self.utxos, &round.unspent);
                if round.receive_next > self.receive_index {
                    self.receive_index = round.receive_next;
                }
                if round.change_next > self.change_index {
                    self.change_index = round.change_next;
                }
                self.utxos = utxos;
                Ok(())
            },
            Err(e) => Err(e),
        }
    }

    /// The balance of the committed outputs.
    pub fn balance(&self, dust_limit: u64) -> (r: Balance)
        ensures
            r.total == total_of(self@.utxos, dust_limit),
            r.confirmed == confirmed_of(self@.utxos, dust_limit),
    {
        balance(&self.utxos, dust_limit)
    }
}

/// Which receive address a caller asks for.
#[derive(Clone, Copy, Debug, PartialEq, Eq, Structural)]
pub enum AddressRequest {
    /// The next unused address; it is then issued and never issued again.
    New,
    /// The most recently issued address (the first one when none was),
    /// without issuing anything.
    LastIssued,
}

impl WalletState {
    /// A receive address of `d`. A new one advances the receive index past
    /// it; asking for the last issued one changes nothing.
    pub fn get_address(&mut self, d: &Descriptor, net: Network, request: AddressRequest) -> (r:
        Result<String, DerivationError>)
        requires
            descriptor_wf(d@),
        ensures
            final(self).utxos@ == old(self).utxos@,
            final(self).change_index == old(self).change_index,
            request == AddressRequest::New && old(self).receive_index >= HARDENED_LIMIT ==> r
                == Err::<String, DerivationError>(DerivationError::DerivationOverflow) && final(self).receive_index == old(self).receive_index,
            request == AddressRequest::New && old(self).receive_index < HARDENED_LIMIT ==> match r {
                Ok(a) => descriptor_address(d@, old(self).receive_index, net) == Some(a@) && final(self).receive_index == old(self).receive_index + 1,
                Err(e) => descriptor_address(d@, old(self).receive_index, net) is None && e
                    == DerivationError::InvalidKey && final(self).receive_index == old(self).receive_index,
            },
            request == AddressRequest::LastIssued ==> final(self).receive_index == old(self).receive_index,
            request == AddressRequest::LastIssued && old(self).receive_index == 0 ==> match r {
                Ok(a) => descriptor_address(d@, 0, net) == Some(a@),
                Err(e) => descriptor_address(d@, 0, net) is None,
            },
            request == AddressRequest::LastIssued && old(self).receive_index > 0 && old(self).receive_index <= HARDENED_LIMIT ==> match r {
                Ok(a) => descriptor_address(d@, (old(self).receive_index - 1) as u32, net) == Some(
                    a@,
                ),
                Err(e) => descriptor_address(d@, (old(self).receive_index - 1) as u32, net) is None,
            },
    {
        match request {
            AddressRequest::New => {
                let index = self.receive_index;
                if index >= HARDENED_LIMIT {
                    return Err(DerivationError::DerivationOverflow);
                }
                let (a, _) = derive_address(d, index, net)?;
                self.receive_index = index + 1;
                Ok(a)
            },
            AddressRequest::LastIssued => {
                let index = if self.receive_index > 0 { self.receive_index - 1 } else { 0 };
                if index >= HARDENED_LIMIT {
                    return Err(DerivationError::DerivationOverflow);
                }
                let (a, _) = derive_address(d, index, net)?;
                Ok(a)
            },
        }
    }
}

} // verus!
