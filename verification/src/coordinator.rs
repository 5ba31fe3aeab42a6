//! The uniqueness coordinator: the bounded-retry loop that, for one
//! configuration, draws combinations until the requested amount of
//! unique, non-blacklisted ones is accepted, or a cumulative failure
//! budget runs out.
//!
//! All accepted fingerprints of a run live in one `DnaSet`, shared
//! across configurations; the set exposes only an atomic
//! check-and-insert, so a caller holding it behind a lock can never let
//! two workers accept the same fingerprint.

use vstd::prelude::*;

use crate::config::{rejected_spec, AppConfig};
use crate::errors::EngineError;
use crate::fingerprint::{fingerprint_of, label_views};
use crate::layers::{base_valid, resolved_pick, visible_labels, visible_names, Layers};

verus! {

/// The run-wide set of accepted fingerprints.
pub struct DnaSet {
    items: Vec<String>,
}

impl DnaSet {
    /// The set of fingerprints held.
    pub closed spec fn contents(self) -> Set<Seq<char>> {
        self.items@.map_values(|s: String| s@).to_set()
    }

    /// An empty fingerprint set.
    pub fn new() -> (r: Self)
        ensures
            r.contents() == Set::<Seq<char>>::empty(),
    {
        let r = DnaSet { items: Vec::new() };
        proof {
            assert(r.items@.map_values(|s: String| s@) =~= Seq::<Seq<char>>::empty());
            assert(r.contents() =~= Set::<Seq<char>>::empty());
        }
        r
    }

    /// The atomic check-and-insert: afterwards the set always holds the
    /// fingerprint, and the result says whether it was absent before.
    /// This is the only way in, so "contains" and "insert" can never be
    /// separated across a lock boundary.
    pub fn insert_if_absent(&mut self, dna: &String) -> (r: bool)
        ensures
            r == !old(self).contents().contains(dna@),
            final(self).contents() == old(self).contents().insert(dna@),
    {
        let ghost pre = self.items@.map_values(|s: String| s@);
        let mut i: usize = 0;
        while i < self.items.len()
            invariant
                i <= self.items@.len(),
                *self == *old(self),
                pre == self.items@.map_values(|s: String| s@),
                forall|k: int| 0 <= k < i ==> pre[k] != dna@,
            decreases self.items@.len() - i,
        {
            if self.items[i].eq(dna) {
                proof {
                    assert(pre[i as int] == dna@);
                    assert(old(self).contents().contains(dna@));
                    assert(old(self).contents().insert(dna@) =~= old(self).contents());
                }
                return false;
            }
            i += 1;
        }
        proof {
            assert(forall|k: int| 0 <= k < pre.len() ==> pre[k] != dna@);
            assert(!old(self).contents().contains(dna@));
        }
        self.items.push(dna.clone());
        proof {
            assert(self.items@.map_values(|s: String| s@) =~= pre.push(dna@));
            assert(pre.push(dna@).to_set() =~= pre.to_set().insert(dna@)) by {
                assert forall|x: Seq<char>| pre.push(dna@).to_set().contains(x) implies pre.to_set()
                    .insert(dna@).contains(x) by {
                    let idx = choose|idx: int|
                        0 <= idx < pre.push(dna@).len() && pre.push(dna@)[idx] == x;
                    if idx < pre.len() {
                        assert(pre[idx] == x);
                    }
                }
                assert forall|x: Seq<char>| pre.to_set().insert(dna@).contains(x) implies pre.push(
                    dna@,
                ).to_set().contains(x) by {
                    if x == dna@ {
                        assert(pre.push(dna@)[pre.len() as int] == x);
                    } else {
                        let idx = choose|idx: int| 0 <= idx < pre.len() && pre[idx] == x;
                        assert(pre.push(dna@)[idx] == x);
                    }
                }
            }
        }
        true
    }
}

/// Everything that holds of one accepted combination: one valid index
/// per layer, reached from some valid draw by the exclusion pass; a
/// fingerprint that is exactly the canonical hash of the combination's
/// visible labels; and a visible trait-name set the blacklist does not
/// reject.
pub open spec fn accepted_ok(
    config: AppConfig,
    layers: Layers,
    bl_case_sen: bool,
    item: (Vec<usize>, String),
) -> bool {
    let tsets = layers.trait_sets@;
    let n = tsets.len() as int;
    &&& item.0@.len() == n
    &&& forall|k: int| 0 <= k < n ==> (#[trigger] item.0@[k]) < tsets[k]@.len()
    &&& exists|base: Seq<usize>|
        base_valid(tsets, base) && forall|k: int|
            0 <= k < n ==> (#[trigger] item.0@[k]) as int == resolved_pick(
                tsets,
                config.layers@,
                base,
                k,
            )
    &&& item.1@ == fingerprint_of(visible_labels(tsets, config.layers@, item.0@, n))
    &&& !rejected_spec(config.bl, visible_names(tsets, item.0@, n), bl_case_sen)
}

/// Drives generation for one configuration: repeatedly samples a
/// combination, rejects it when the blacklist objects or its
/// fingerprint is already taken, and otherwise accepts it, until
/// `config.amount` combinations are accepted or the cumulative failure
/// count exceeds `config.tolerance`.
///
/// On success every accepted combination satisfies `accepted_ok`, the
/// accepted fingerprints are pairwise distinct, each was absent from
/// the shared set before the call and is present after it.  On failure
/// the error names the configuration, the amount requested and the
/// tolerance.  Either way the shared set only grows.
#[verifier::loop_isolation(false)]
pub fn generate(
    config: &AppConfig,
    layers: &Layers,
    bl_case_sen: bool,
    dna_set: &mut DnaSet,
) -> (r: Result<Vec<(Vec<usize>, String)>, EngineError>)
    requires
        layers.trait_sets@.len() == config.layers@.len(),
        forall|i: int|
            0 <= i < layers.trait_sets@.len() ==> (#[trigger] layers.trait_sets@[i]@.len()) > 0,
        forall|i: int|
            0 <= i < layers.trait_sets@.len() ==> (#[trigger] layers.trait_sets@[i]@.len())
                <= 0xFFFF_FFFF,
    ensures
        old(dna_set).contents().subset_of(final(dna_set).contents()),
        config.amount == 0 ==> r is Ok,
        r matches Ok(v) ==> {
            &&& v@.len() == config.amount
            &&& forall|a: int|
                0 <= a < v@.len() ==> accepted_ok(*config, *layers, bl_case_sen, #[trigger] v@[a])
            &&& forall|a: int, b: int|
                0 <= a < b < v@.len() ==> (#[trigger] v@[a]).1@ != (#[trigger] v@[b]).1@
            &&& forall|a: int|
                0 <= a < v@.len() ==> final(dna_set).contents().contains((#[trigger] v@[a]).1@)
            &&& forall|a: int|
                0 <= a < v@.len() ==> !old(dna_set).contents().contains((#[trigger] v@[a]).1@)
        },
        r matches Err(e) ==> e == EngineError::ToleranceExceeded(
            config.config_name,
            config.amount,
            config.tolerance,
        ),
{
    let mut uniques: Vec<(Vec<usize>, String)> = Vec::new();
    let mut fails: usize = 0;
    while uniques.len() < config.amount
        invariant
            uniques@.len() <= config.amount,
            fails <= config.tolerance,
            old(dna_set).contents().subset_of(dna_set.contents()),
            forall|a: int|
                0 <= a < uniques@.len() ==> accepted_ok(
                    *config,
                    *layers,
                    bl_case_sen,
                    #[trigger] uniques@[a],
                ),
            forall|a: int, b: int|
                0 <= a < b < uniques@.len() ==> (#[trigger] uniques@[a]).1@ != (
                #[trigger] uniques@[b]).1@,
            forall|a: int|
                0 <= a < uniques@.len() ==> dna_set.contents().contains(
                    (#[trigger] uniques@[a]).1@,
                ),
            forall|a: int|
                0 <= a < uniques@.len() ==> !old(dna_set).contents().contains(
                    (#[trigger] uniques@[a]).1@,
                ),
        decreases (config.amount - uniques@.len()) + (config.tolerance - fails),
    {
        let drawn = layers.create_unique(config.layers.as_slice());
        let (def, names, dna) = drawn;
        let rejected = config.is_bl(&names, bl_case_sen);
        let mut accepted = false;
        if !rejected {
            accepted = dna_set.insert_if_absent(&dna);
        }
        if accepted {
            proof {
                assert(label_views(names@) == visible_names(
                    layers.trait_sets@,
                    def@,
                    layers.trait_sets@.len() as int,
                ));
                assert(accepted_ok(*config, *layers, bl_case_sen, (def, dna)));
            }
            uniques.push((def, dna));
        } else {
            if fails >= config.tolerance {
                return Err(
                    EngineError::ToleranceExceeded(
                        config.config_name.clone(),
                        config.amount,
                        config.tolerance,
                    ),
                );
            }
            fails += 1;
        }
    }
    Ok(uniques)
}

} // verus!
