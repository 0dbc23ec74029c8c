//! What holds of the keeper across calls: capacity, well-formedness,
//! idempotent relays, compaction on removal, and ownership.
use vstd::prelude::*;
use crate::price::{Price, is_sentinel, is_empty_price};
use crate::gate::{PriceDbError, Signer, initialized};
use crate::codec::{keeper_bytes, encoding_of, encodes_keeper, lemma_keeper_bytes_injective};
use crate::std_reference_basic::{
    PriceDBKeeper, Command, scan_from, slot_of, refreshed, apply_updates, new_records,
    relay_overflows, relay_post, same_keeper, listed, retained, remove_post, wf, slots_wf,
    keys_distinct, keeper_of, keeper_step, updated, lemma_scan_in_range, lemma_scan_symbols,
    lemma_updates_keep_symbols,
};

verus! {

/// Against a well-formed keeper, a scan for a real symbol never settles past
/// the active slots.
pub proof fn lemma_scan_below(slots: Seq<Price>, n: int, key: Seq<u8>, i: int)
    requires
        slots_wf(n, slots),
        !is_sentinel(key),
        0 <= i <= n,
    ensures
        scan_from(slots, key, i) matches Some(j) ==> j < n,
    decreases n - i,
{
    if i < n {
        lemma_scan_below(slots, n, key, i + 1);
    } else if i < slots.len() {
        assert(is_empty_price(slots[i]));
    }
}

/// Updates by real symbols leave the slots past the active ones alone.
pub proof fn lemma_updates_below(slots: Seq<Price>, n: int, batch: Seq<Price>)
    requires
        slots_wf(n, slots),
        forall|j: int| 0 <= j < batch.len() ==> !is_sentinel(#[trigger] batch[j].symbol@),
    ensures
        forall|j: int| n <= j < slots.len() ==> #[trigger] apply_updates(slots, batch)[j] == slots[j],
    decreases batch.len(),
{
    if batch.len() > 0 {
        let b = batch.drop_last();
        assert forall|j: int| 0 <= j < b.len() implies !is_sentinel(#[trigger] b[j].symbol@) by {
            assert(b[j] == batch[j]);
        }
        lemma_updates_below(slots, n, b);
        lemma_updates_keep_symbols(slots, b);
        let u = apply_updates(slots, b);
        let p = batch.last();
        assert(!is_sentinel(batch[batch.len() - 1].symbol@));
        lemma_scan_symbols(u, slots, p.symbol@, 0);
        lemma_scan_below(slots, n, p.symbol@, 0);
        lemma_scan_in_range(slots, p.symbol@, 0);
        assert forall|j: int| n <= j < slots.len() implies #[trigger] apply_updates(slots, batch)[j]
            == slots[j] by {
            assert(u[j] == slots[j]);
            assert(batch.drop_last() == b);
            match slot_of(u, p.symbol@) {
                Some(i) => {
                    assert(i < n);
                    assert(apply_updates(slots, batch) == u.update(i, refreshed(u[i], p)));
                },
                None => {
                    assert(apply_updates(slots, batch) == u);
                },
            }
        }
    }
}

/// The new records of a batch of real symbols have real symbols.
pub proof fn lemma_new_records_real(slots: Seq<Price>, batch: Seq<Price>)
    requires
        forall|j: int| 0 <= j < batch.len() ==> !is_sentinel(#[trigger] batch[j].symbol@),
    ensures
        forall|j: int|
            0 <= j < new_records(slots, batch).len() ==> !is_sentinel(
                #[trigger] new_records(slots, batch)[j].symbol@,
            ),
    decreases batch.len(),
{
    if batch.len() > 0 {
        let b = batch.drop_last();
        assert forall|j: int| 0 <= j < b.len() implies !is_sentinel(#[trigger] b[j].symbol@) by {
            assert(b[j] == batch[j]);
        }
        lemma_new_records_real(slots, b);
        assert(!is_sentinel(batch[batch.len() - 1].symbol@));
        let rest = new_records(slots, b);
        let all = new_records(slots, batch);
        assert forall|j: int| 0 <= j < all.len() implies !is_sentinel(#[trigger] all[j].symbol@) by {
            if j < rest.len() {
                assert(all[j] == rest[j]);
            }
        }
    }
}

/// Relays keep the active count within the capacity, which they never change,
/// and a relay that fails changes nothing.
pub proof fn lemma_relay_capacity(
    before: PriceDBKeeper,
    batch: Seq<Price>,
    after: PriceDBKeeper,
    r: Result<(), PriceDbError>,
)
    requires
        before.current_size <= before.prices@.len() <= 255,
        relay_post(before, batch, after, r),
    ensures
        after.current_size <= after.prices@.len(),
        after.prices@.len() == before.prices@.len(),
        r is Err ==> same_keeper(after, before),
{
}

/// Over any run of relays from a keeper whose active count is within its
/// capacity, every state keeps the capacity and an active count within it.
pub proof fn lemma_relay_run_capacity(
    states: Seq<PriceDBKeeper>,
    batches: Seq<Seq<Price>>,
    results: Seq<Result<(), PriceDbError>>,
)
    requires
        states.len() == batches.len() + 1,
        results.len() == batches.len(),
        states[0].current_size <= states[0].prices@.len() <= 255,
        forall|i: int|
            0 <= i < batches.len() ==> relay_post(
                states[i],
                #[trigger] batches[i],
                states[i + 1],
                results[i],
            ),
    ensures
        forall|i: int|
            0 <= i < states.len() ==> (#[trigger] states[i]).current_size <= states[i].prices@.len()
                && states[i].prices@.len() == states[0].prices@.len(),
    decreases batches.len(),
{
    if batches.len() > 0 {
        let n = batches.len() - 1;
        lemma_relay_run_capacity(states.take(n + 1), batches.take(n), results.take(n));
        assert(states.take(n + 1)[n] == states[n]);
        assert(relay_post(states[n], batches[n], states[n + 1], results[n]));
        lemma_relay_capacity(states[n], batches[n], states[n + 1], results[n]);
        assert forall|i: int| 0 <= i < states.len() implies (#[trigger] states[i]).current_size
            <= states[i].prices@.len() && states[i].prices@.len() == states[0].prices@.len() by {
            if i <= n {
                assert(states.take(n + 1)[i] == states[i]);
            }
        }
    }
}

/// A relay of records with real symbols keeps a well-formed keeper well formed.
pub proof fn lemma_relay_keeps_wf(
    before: PriceDBKeeper,
    batch: Seq<Price>,
    after: PriceDBKeeper,
    r: Result<(), PriceDbError>,
)
    requires
        wf(before),
        forall|j: int| 0 <= j < batch.len() ==> !is_sentinel(#[trigger] batch[j].symbol@),
        relay_post(before, batch, after, r),
    ensures
        wf(after),
{
    if !relay_overflows(before, batch) {
        let s = before.prices@;
        let n = before.current_size as int;
        let fresh = new_records(s, batch);
        let u = apply_updates(s, batch);
        lemma_updates_keep_symbols(s, batch);
        lemma_updates_below(s, n, batch);
        lemma_new_records_real(s, batch);
        assert forall|i: int| 0 <= i < after.current_size implies !is_sentinel(
            #[trigger] after.prices@[i].symbol@,
        ) by {
            if i < n {
                assert(u[i].symbol@ == s[i].symbol@);
            } else {
                assert(after.prices@[i] == fresh[i - n]);
            }
        }
        assert forall|i: int| after.current_size <= i < after.prices@.len() implies is_empty_price(
            #[trigger] after.prices@[i],
        ) by {
            assert(u[i] == s[i]);
        }
    }
}

/// A scan for a symbol that an active slot holds, in a keeper whose active
/// slots are real, settles on a slot.
pub proof fn lemma_scan_finds(slots: Seq<Price>, key: Seq<u8>, i: int, t: int)
    requires
        0 <= i <= t < slots.len(),
        slots[t].symbol@ == key,
        forall|m: int| i <= m < t ==> !is_sentinel(#[trigger] slots[m].symbol@),
    ensures
        scan_from(slots, key, i) is Some,
    decreases t - i,
{
    if slots[i].symbol@ != key {
        lemma_scan_finds(slots, key, i + 1, t);
    }
}

/// The slot that active slot `t`'s symbol finds is `t`, when the active
/// symbols are distinct.
pub proof fn lemma_slot_of_active(k: PriceDBKeeper, t: int)
    requires
        wf(k),
        keys_distinct(k),
        0 <= t < k.current_size,
    ensures
        slot_of(k.prices@, k.prices@[t].symbol@) == Some(t),
{
    let s = k.prices@;
    let key = s[t].symbol@;
    lemma_scan_finds(s, key, 0, t);
    lemma_scan_below(s, k.current_size as int, key, 0);
    lemma_scan_in_range(s, key, 0);
    let m = slot_of(s, key)->Some_0;
    if m != t {
        if m < t {
            assert(s[m].symbol@ != s[t].symbol@);
        } else {
            assert(s[t].symbol@ != s[m].symbol@);
        }
    }
}

/// Some active slot holds `p`'s symbol and rate.
pub open spec fn repeats_active(k: PriceDBKeeper, p: Price) -> bool {
    exists|i: int| 0 <= i < k.current_size && k.prices@[i].symbol@ == p.symbol@ && k.prices@[i].rate == p.rate
}

/// Updates by records that each repeat an active slot's symbol and rate keep
/// every symbol and rate, and add no new record.
pub proof fn lemma_updates_identical(k: PriceDBKeeper, batch: Seq<Price>)
    requires
        wf(k),
        keys_distinct(k),
        forall|b: int| 0 <= b < batch.len() ==> repeats_active(k, #[trigger] batch[b]),
    ensures
        new_records(k.prices@, batch).len() == 0,
        apply_updates(k.prices@, batch).len() == k.prices@.len(),
        forall|i: int|
            0 <= i < k.prices@.len() ==> (#[trigger] apply_updates(k.prices@, batch)[i]).symbol
                == k.prices@[i].symbol && apply_updates(k.prices@, batch)[i].rate
                == k.prices@[i].rate,
    decreases batch.len(),
{
    let s = k.prices@;
    if batch.len() > 0 {
        let b = batch.drop_last();
        assert forall|x: int| 0 <= x < b.len() implies repeats_active(k, #[trigger] b[x]) by {
            assert(b[x] == batch[x]);
        }
        lemma_updates_identical(k, b);
        let p = batch.last();
        assert(batch[batch.len() - 1] == p);
        let t = choose|i: int|
            0 <= i < k.current_size && s[i].symbol@ == p.symbol@ && s[i].rate == p.rate;
        lemma_slot_of_active(k, t);
        let u = apply_updates(s, b);
        lemma_updates_keep_symbols(s, b);
        lemma_scan_symbols(u, s, p.symbol@, 0);
        assert(s[t].symbol == u[t].symbol) by {
            assert(s[t].symbol =~= u[t].symbol);
        }
        let u2 = apply_updates(s, batch);
        assert forall|i: int| 0 <= i < s.len() implies (#[trigger] u2[i]).symbol == s[i].symbol
            && u2[i].rate == s[i].rate by {
            if i == t {
                assert(u2[i] == refreshed(u[t], p));
            }
        }
    }
}

/// Relaying records that repeat active entries, symbol and rate, changes
/// neither the active count nor any slot's symbol or rate.
pub proof fn lemma_relay_identical(
    before: PriceDBKeeper,
    batch: Seq<Price>,
    after: PriceDBKeeper,
    r: Result<(), PriceDbError>,
)
    requires
        wf(before),
        keys_distinct(before),
        forall|b: int| 0 <= b < batch.len() ==> repeats_active(before, #[trigger] batch[b]),
        relay_post(before, batch, after, r),
    ensures
        r is Ok,
        after.current_size == before.current_size,
        after.prices@.len() == before.prices@.len(),
        forall|i: int|
            0 <= i < after.prices@.len() ==> (#[trigger] after.prices@[i]).symbol
                == before.prices@[i].symbol && after.prices@[i].rate == before.prices@[i].rate,
{
    lemma_updates_identical(before, batch);
    let u = apply_updates(before.prices@, batch);
    assert forall|i: int| 0 <= i < after.prices@.len() implies after.prices@[i] == u[i] by {}
}

/// With the slots past `n` empty, a removal keeps only records among the
/// first `n`.
pub proof fn lemma_retained_prefix(slots: Seq<Price>, n: int, keys: Seq<[u8; 8]>)
    requires
        0 <= n <= slots.len(),
        forall|i: int| n <= i < slots.len() ==> is_empty_price(#[trigger] slots[i]),
    ensures
        retained(slots, keys) == retained(slots.take(n), keys),
    decreases slots.len(),
{
    if slots.len() == n {
        assert(slots.take(n) =~= slots);
    } else {
        let d = slots.drop_last();
        assert(is_empty_price(slots[slots.len() - 1]));
        assert(d.take(n) =~= slots.take(n));
        lemma_retained_prefix(d, n, keys);
    }
}

/// Over real records a removal is a filter by the keys.
pub proof fn lemma_retained_filter(slots: Seq<Price>, keys: Seq<[u8; 8]>)
    requires
        forall|i: int| 0 <= i < slots.len() ==> !is_sentinel(#[trigger] slots[i].symbol@),
    ensures
        retained(slots, keys) == slots.filter(|p: Price| !listed(keys, p.symbol@)),
        retained(slots, keys).len() <= slots.len(),
        forall|i: int|
            0 <= i < retained(slots, keys).len() ==> !is_sentinel(
                #[trigger] retained(slots, keys)[i].symbol@,
            ),
    decreases slots.len(),
{
    reveal(Seq::filter);
    if slots.len() > 0 {
        let d = slots.drop_last();
        assert forall|i: int| 0 <= i < d.len() implies !is_sentinel(#[trigger] d[i].symbol@) by {
            assert(d[i] == slots[i]);
        }
        lemma_retained_filter(d, keys);
        assert(!is_sentinel(slots[slots.len() - 1].symbol@));
        let rest = retained(d, keys);
        let all = retained(slots, keys);
        assert forall|j: int| 0 <= j < all.len() implies !is_sentinel(#[trigger] all[j].symbol@) by {
            if j < rest.len() {
                assert(all[j] == rest[j]);
            }
        }
    }
}

/// After a removal from a well-formed keeper, the active slots hold exactly
/// the earlier active records whose symbols were not removed, in their order,
/// every later slot is empty, and the keeper is well formed.
pub proof fn lemma_remove_compacts(before: PriceDBKeeper, keys: Seq<[u8; 8]>, after: PriceDBKeeper)
    requires
        wf(before),
        remove_post(before, keys, after),
    ensures
        after.prices@.take(after.current_size as int) == before.prices@.take(
            before.current_size as int,
        ).filter(|p: Price| !listed(keys, p.symbol@)),
        forall|i: int|
            after.current_size <= i < after.prices@.len() ==> is_empty_price(
                #[trigger] after.prices@[i],
            ),
        wf(after),
{
    let s = before.prices@;
    let n = before.current_size as int;
    lemma_retained_prefix(s, n, keys);
    let t = s.take(n);
    assert forall|i: int| 0 <= i < t.len() implies !is_sentinel(#[trigger] t[i].symbol@) by {
        assert(t[i] == s[i]);
    }
    lemma_retained_filter(t, keys);
    let kept = retained(s, keys);
    assert(kept.len() <= n);
    assert(after.current_size == kept.len());
    assert(after.prices@.take(after.current_size as int) =~= kept);
    assert forall|i: int| 0 <= i < after.current_size implies !is_sentinel(
        #[trigger] after.prices@[i].symbol@,
    ) by {
        assert(after.prices@[i] == kept[i]);
    }
}

/// A command other than `Init` from anyone but the stored owner fails, with
/// `NotOwner` when the sender authorized it, and changes nothing.
pub proof fn lemma_only_owner_mutates(
    command: Command,
    old: Seq<u8>,
    sender: Option<Signer>,
    new: Seq<u8>,
    r: Result<(), PriceDbError>,
)
    requires
        !(command is Init),
        keeper_step(command, old, sender, new, r),
        encodes_keeper(old),
        sender matches Some(s) && s.key@ != keeper_of(old).owner@,
    ensures
        r is Err,
        new == old,
        initialized(old) && sender->Some_0.is_signer ==> r == Err::<(), PriceDbError>(
            PriceDbError::NotOwner,
        ),
{
}

/// Right after a successful transfer of ownership to `x`, a command other
/// than `Init` from any other identity fails and changes nothing.
pub proof fn lemma_transfer_hands_over(
    x: [u8; 32],
    d0: Seq<u8>,
    s0: Option<Signer>,
    d1: Seq<u8>,
    command: Command,
    sender: Option<Signer>,
    d2: Seq<u8>,
    r: Result<(), PriceDbError>,
)
    requires
        keeper_step(Command::TransferOwnership(x), d0, s0, d1, Ok(())),
        !(command is Init),
        keeper_step(command, d1, sender, d2, r),
        sender matches Some(s) && s.key@ != x@,
    ensures
        r is Err,
        d2 == d1,
{
    let k0 = keeper_of(d0);
    let after = choose|after: PriceDBKeeper|
        updated(Command::TransferOwnership(x), k0, after, Ok(())) && d1 == encoding_of(after)
            && after.prices@.len() <= u32::MAX;
    assert(keeper_bytes(after.owner@, after.current_size, after.prices@) == d1);
    assert(encodes_keeper(d1));
    let k1 = keeper_of(d1);
    lemma_keeper_bytes_injective(
        after.owner@,
        after.current_size,
        after.prices@,
        k1.owner@,
        k1.current_size,
        k1.prices@,
    );
}

} // verus!
