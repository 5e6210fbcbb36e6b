//! In which order hidden neurons are visited.
use vstd::prelude::*;

use crate::creature::{hidden_uuids, is_hidden_neuron, Creature};
use crate::list::true_places;
use crate::measure::{Measure, INFINITE_MAGNITUDE, ONE_BITS};
use crate::sort::{
    in_order, law_sorted_is_a_permutation, law_sorted_is_in_order, law_sorted_is_stable, sorted,
    stable_sort, well_ranked, Ranked,
};
use crate::text::{holds, join, joined, same_text, text_of, texts};

verus! {

/// What a sweep ranks neurons by.
#[derive(Clone, Copy, Debug, PartialEq, Eq, Structural)]
pub enum OrderingStrategy {
    /// Nothing: a seeded shuffle.
    Random,
    /// The flattest activation first.
    LowVariance,
    /// The quietest activation first.
    LowMeanAbs,
    /// The tightest activation first.
    NarrowRange,
    /// The quietest contribution to what it feeds first.
    LowOutgoingContribution,
    /// The fewest targets first.
    LowFanOut,
    /// The largest saving of its own synapses first.
    HighGrowthSaving,
    /// Neurons that only pass their input on first.
    IdentityFirst,
    /// The largest saving with everything that goes along first.
    CascadeSaving,
    /// The quietest contribution per saving first.
    CascadeRiskRatio,
    /// The least sway over the outputs first.
    LowOutputSensitivity,
    /// The least sway over the outputs, weighted by loudness, first.
    LowEstimatedEffect,
}

/// The name of a strategy.
pub open spec fn strategy_name(strategy: OrderingStrategy) -> Seq<char> {
    match strategy {
        OrderingStrategy::Random => "random"@,
        OrderingStrategy::LowVariance => "low-variance"@,
        OrderingStrategy::LowMeanAbs => "low-mean-abs"@,
        OrderingStrategy::NarrowRange => "narrow-range"@,
        OrderingStrategy::LowOutgoingContribution => "low-outgoing-contribution"@,
        OrderingStrategy::LowFanOut => "low-fan-out"@,
        OrderingStrategy::HighGrowthSaving => "high-growth-saving"@,
        OrderingStrategy::IdentityFirst => "identity-first"@,
        OrderingStrategy::CascadeSaving => "cascade-saving"@,
        OrderingStrategy::CascadeRiskRatio => "cascade-risk-ratio"@,
        OrderingStrategy::LowOutputSensitivity => "low-output-sensitivity"@,
        OrderingStrategy::LowEstimatedEffect => "low-estimated-effect"@,
    }
}

/// All strategies, the control first.
pub open spec fn all_strategies() -> Seq<OrderingStrategy> {
    seq![
        OrderingStrategy::Random,
        OrderingStrategy::LowVariance,
        OrderingStrategy::LowMeanAbs,
        OrderingStrategy::NarrowRange,
        OrderingStrategy::LowOutgoingContribution,
        OrderingStrategy::LowFanOut,
        OrderingStrategy::HighGrowthSaving,
        OrderingStrategy::IdentityFirst,
        OrderingStrategy::CascadeSaving,
        OrderingStrategy::CascadeRiskRatio,
        OrderingStrategy::LowOutputSensitivity,
        OrderingStrategy::LowEstimatedEffect,
    ]
}

/// The names of all strategies.
pub open spec fn all_names() -> Seq<Seq<char>> {
    Seq::new(all_strategies().len(), |i: int| strategy_name(all_strategies()[i]))
}

/// Every strategy is listed.
pub proof fn law_every_strategy_is_listed(strategy: OrderingStrategy)
    ensures
        all_strategies().contains(strategy),
{
    let all = all_strategies();
    let at: int = match strategy {
        OrderingStrategy::Random => 0,
        OrderingStrategy::LowVariance => 1,
        OrderingStrategy::LowMeanAbs => 2,
        OrderingStrategy::NarrowRange => 3,
        OrderingStrategy::LowOutgoingContribution => 4,
        OrderingStrategy::LowFanOut => 5,
        OrderingStrategy::HighGrowthSaving => 6,
        OrderingStrategy::IdentityFirst => 7,
        OrderingStrategy::CascadeSaving => 8,
        OrderingStrategy::CascadeRiskRatio => 9,
        OrderingStrategy::LowOutputSensitivity => 10,
        OrderingStrategy::LowEstimatedEffect => 11,
    };
    assert(all[at] == strategy);
}

/// A name belongs to one strategy only.
pub proof fn law_names_are_distinct(a: OrderingStrategy, b: OrderingStrategy)
    requires
        strategy_name(a) == strategy_name(b),
    ensures
        a == b,
{
    reveal_strlit("random");
    reveal_strlit("low-variance");
    reveal_strlit("low-mean-abs");
    reveal_strlit("narrow-range");
    reveal_strlit("low-outgoing-contribution");
    reveal_strlit("low-fan-out");
    reveal_strlit("high-growth-saving");
    reveal_strlit("identity-first");
    reveal_strlit("cascade-saving");
    reveal_strlit("cascade-risk-ratio");
    reveal_strlit("low-output-sensitivity");
    reveal_strlit("low-estimated-effect");
    assert("low-variance"@[4] == 'v' && "low-mean-abs"@[4] == 'm' && "narrow-range"@[4] == 'o');
    assert("identity-first"@[0] == 'i' && "cascade-saving"@[0] == 'c');
    assert("high-growth-saving"@[0] == 'h' && "cascade-risk-ratio"@[0] == 'c');
    let name = strategy_name(a);
    assert(name.len() == strategy_name(b).len());
    assert(name[0] == strategy_name(b)[0] && name[4] == strategy_name(b)[4]);
}

impl Default for OrderingStrategy {
    fn default() -> (r: OrderingStrategy)
        ensures
            r == OrderingStrategy::Random,
    {
        OrderingStrategy::Random
    }
}

impl OrderingStrategy {
    /// All strategies, the control first.
    pub fn all() -> (r: Vec<OrderingStrategy>)
        ensures
            r@ == all_strategies(),
    {
        let mut all: Vec<OrderingStrategy> = Vec::new();
        all.push(OrderingStrategy::Random);
        all.push(OrderingStrategy::LowVariance);
        all.push(OrderingStrategy::LowMeanAbs);
        all.push(OrderingStrategy::NarrowRange);
        all.push(OrderingStrategy::LowOutgoingContribution);
        all.push(OrderingStrategy::LowFanOut);
        all.push(OrderingStrategy::HighGrowthSaving);
        all.push(OrderingStrategy::IdentityFirst);
        all.push(OrderingStrategy::CascadeSaving);
        all.push(OrderingStrategy::CascadeRiskRatio);
        all.push(OrderingStrategy::LowOutputSensitivity);
        all.push(OrderingStrategy::LowEstimatedEffect);
        assert(all@ =~= all_strategies());
        all
    }

    /// The name of the strategy.
    pub fn name(self) -> (r: &'static str)
        ensures
            r@ == strategy_name(self),
    {
        match self {
            OrderingStrategy::Random => "random",
            OrderingStrategy::LowVariance => "low-variance",
            OrderingStrategy::LowMeanAbs => "low-mean-abs",
            OrderingStrategy::NarrowRange => "narrow-range",
            OrderingStrategy::LowOutgoingContribution => "low-outgoing-contribution",
            OrderingStrategy::LowFanOut => "low-fan-out",
            OrderingStrategy::HighGrowthSaving => "high-growth-saving",
            OrderingStrategy::IdentityFirst => "identity-first",
            OrderingStrategy::CascadeSaving => "cascade-saving",
            OrderingStrategy::CascadeRiskRatio => "cascade-risk-ratio",
            OrderingStrategy::LowOutputSensitivity => "low-output-sensitivity",
            OrderingStrategy::LowEstimatedEffect => "low-estimated-effect",
        }
    }

    /// Whether the strategy ranks by what a cut takes along.
    pub fn needs_cascade(self) -> (r: bool)
        ensures
            r == (self == OrderingStrategy::CascadeSaving || self
                == OrderingStrategy::CascadeRiskRatio),
    {
        match self {
            OrderingStrategy::CascadeSaving => true,
            OrderingStrategy::CascadeRiskRatio => true,
            _ => false,
        }
    }

    /// Whether the strategy ranks by sway over the outputs.
    pub fn needs_sensitivity(self) -> (r: bool)
        ensures
            r == (self == OrderingStrategy::LowOutputSensitivity || self
                == OrderingStrategy::LowEstimatedEffect),
    {
        match self {
            OrderingStrategy::LowOutputSensitivity => true,
            OrderingStrategy::LowEstimatedEffect => true,
            _ => false,
        }
    }

    /// All names, comma and space between them.
    pub fn names() -> (r: String)
        ensures
            r@ == joined(all_names(), ", "@),
    {
        let all = OrderingStrategy::all();
        let mut names: Vec<String> = Vec::new();
        let mut i: usize = 0;
        while i < all.len()
            invariant
                i <= all@.len(),
                all@ == all_strategies(),
                names@.len() == i,
                forall|k: int| 0 <= k < i ==> (#[trigger] names@[k])@ == strategy_name(all@[k]),
            decreases all.len() - i,
        {
            names.push(text_of(all[i].name()));
            i += 1;
        }
        assert(texts(names@) =~= all_names());
        join(&names, ", ")
    }

    /// The strategy of a name.
    pub fn parse(name: &str) -> (r: Result<OrderingStrategy, String>)
        ensures
            match r {
                Ok(strategy) => strategy_name(strategy) == name@,
                Err(message) => {
                    &&& forall|s: OrderingStrategy| #[trigger] strategy_name(s) != name@
                    &&& message@ == "unknown ordering `"@ + name@ + "`; expected one of: "@
                        + joined(all_names(), ", "@)
                },
            },
    {
        let all = OrderingStrategy::all();
        let mut i: usize = 0;
        while i < all.len()
            invariant
                i <= all@.len(),
                all@ == all_strategies(),
                forall|k: int| 0 <= k < i ==> strategy_name(#[trigger] all@[k]) != name@,
            decreases all.len() - i,
        {
            if same_text(all[i].name(), name) {
                return Ok(all[i]);
            }
            i += 1;
        }
        proof {
            assert forall|s: OrderingStrategy| #[trigger] strategy_name(s) != name@ by {
                law_every_strategy_is_listed(s);
                let k = choose|k: int| 0 <= k < all_strategies().len() && all_strategies()[k] == s;
                assert(strategy_name(all@[k]) != name@);
            }
        }
        let names = OrderingStrategy::names();
        let mut message = text_of("unknown ordering `");
        message.append(name);
        message.append("`; expected one of: ");
        message.append(names.as_str());
        Err(message)
    }
}

/// A strategy and the share of visits that it leaves to chance.
#[derive(Clone, Copy, Debug, PartialEq, Eq, Structural)]
pub struct OrderingConfig {
    /// What neurons are ranked by.
    pub strategy: OrderingStrategy,
    /// The share of visits in random order.
    pub random_quota: Measure,
}

/// A share of at least none and less than all.
pub open spec fn valid_quota(quota: Measure) -> bool {
    quota.finite() && (Measure { bits: 0 }).at_most(quota) && quota.below(
        Measure { bits: ONE_BITS },
    )
}

impl OrderingConfig {
    /// A strategy that leaves nothing to chance.
    pub fn new(strategy: OrderingStrategy) -> (r: OrderingConfig)
        ensures
            r.strategy == strategy,
            r.random_quota == (Measure { bits: 0 }),
    {
        OrderingConfig { strategy, random_quota: Measure::zero() }
    }

    /// Refuses a share that is not in range.
    pub fn validate(&self) -> (r: Result<(), String>)
        ensures
            r is Ok <==> valid_quota(self.random_quota),
            r matches Err(message) ==> message@ == "--ordering-random-quota must be in [0, 1)"@,
    {
        let quota = self.random_quota;
        if !(quota.is_finite() && Measure::zero().le(quota) && quota.lt(Measure::one())) {
            return Err(text_of("--ordering-random-quota must be in [0, 1)"));
        }
        Ok(())
    }
}

/// What the generator adds to its state at each step.
pub const GOLDEN_GAMMA: u64 = 0x9E37_79B9_7F4A_7C15;

/// A small, fast generator of pseudo-random numbers.
pub struct SplitMix64 {
    /// The state.
    pub state: u64,
}

/// The state after one step.
pub open spec fn stepped(state: u64) -> u64 {
    state.wrapping_add(GOLDEN_GAMMA)
}

/// The number that a state gives.
pub open spec fn mixed(state: u64) -> u64 {
    let a = (state ^ (state >> 30)).wrapping_mul(0xBF58_476D_1CE4_E5B9);
    let b = (a ^ (a >> 27)).wrapping_mul(0x94D0_49BB_1331_11EB);
    b ^ (b >> 31)
}

/// Two entries of a list change places.
pub open spec fn swapped<T>(list: Seq<T>, i: int, j: int) -> Seq<T> {
    list.update(i, list[j]).update(j, list[i])
}

/// The place that a state picks among the first `i + 1`.
pub open spec fn picked(state: u64, i: int) -> int {
    (mixed(state) as usize) as int % (i + 1)
}

/// A list shuffled from place `i` downwards.
pub open spec fn shuffled<T>(list: Seq<T>, state: u64, i: int) -> Seq<T>
    decreases i,
{
    if i <= 0 {
        list
    } else {
        shuffled(swapped(list, i, picked(stepped(state), i)), stepped(state), i - 1)
    }
}

/// The state after so many numbers were drawn.
pub open spec fn advanced(state: u64, draws: int) -> u64
    decreases draws,
{
    if draws <= 0 {
        state
    } else {
        advanced(stepped(state), draws - 1)
    }
}

proof fn lemma_swapped_is_a_permutation<T>(list: Seq<T>, i: int, j: int)
    requires
        0 <= i < list.len(),
        0 <= j < list.len(),
    ensures
        swapped(list, i, j).to_multiset() == list.to_multiset(),
        swapped(list, i, j).len() == list.len(),
{
    vstd::seq_lib::to_multiset_update(list, i, list[j]);
    vstd::seq_lib::to_multiset_update(list.update(i, list[j]), j, list[i]);
    broadcast use vstd::multiset::group_multiset_axioms;
    let a = list.to_multiset();
    let b = swapped(list, i, j).to_multiset();
    list.to_multiset_ensures();
    assert(list.contains(list[i]));
    assert(list.contains(list[j]));
    assert(b =~= a);
}

/// Shuffling neither loses nor invents an entry.
pub proof fn law_shuffle_is_a_permutation<T>(list: Seq<T>, state: u64, i: int)
    requires
        i < list.len() || i <= 0,
    ensures
        shuffled(list, state, i).to_multiset() == list.to_multiset(),
        shuffled(list, state, i).len() == list.len(),
    decreases i,
{
    if i > 0 {
        let j = picked(stepped(state), i);
        vstd::arithmetic::div_mod::lemma_mod_bound((mixed(stepped(state)) as usize) as int, i + 1);
        lemma_swapped_is_a_permutation(list, i, j);
        law_shuffle_is_a_permutation(swapped(list, i, j), stepped(state), i - 1);
    }
}

fn swap<T>(items: &mut Vec<T>, i: usize, j: usize)
    requires
        j <= i < old(items)@.len(),
    ensures
        final(items)@ == swapped(old(items)@, i as int, j as int),
{
    let ghost before = items@;
    if i == j {
        assert(swapped(before, i as int, j as int) =~= before);
        return;
    }
    let last: usize = items.len() - 1;
    match items.pop() {
        Some(held) => {
            let mut carried = held;
            if i == last {
                items.set_and_swap(j, &mut carried);
            } else {
                items.set_and_swap(i, &mut carried);
                items.set_and_swap(j, &mut carried);
                items.set_and_swap(i, &mut carried);
            }
            items.push(carried);
            assert(items@ =~= swapped(before, i as int, j as int));
        },
        None => {},
    }
}

impl SplitMix64 {
    /// The next number.
    pub fn next(&mut self) -> (r: u64)
        ensures
            final(self).state == stepped(old(self).state),
            r == mixed(final(self).state),
    {
        self.state = self.state.wrapping_add(GOLDEN_GAMMA);
        let state: u64 = self.state;
        let a: u64 = (state ^ (state >> 30)).wrapping_mul(0xBF58_476D_1CE4_E5B9);
        let b: u64 = (a ^ (a >> 27)).wrapping_mul(0x94D0_49BB_1331_11EB);
        b ^ (b >> 31)
    }

    /// Shuffles a list from its end to its start.
    pub fn shuffle<T>(&mut self, items: &mut Vec<T>)
        ensures
            final(items)@ == shuffled(
                old(items)@,
                old(self).state,
                old(items)@.len() - 1,
            ),
            final(self).state == advanced(old(self).state, old(items)@.len() - 1),
    {
        if items.len() == 0 {
            return;
        }
        let mut i: usize = items.len() - 1;
        let ghost start = items@;
        let ghost seed = self.state;
        while i > 0
            invariant
                items@.len() == start.len(),
                i < items@.len(),
                shuffled(items@, self.state, i as int) == shuffled(
                    start,
                    seed,
                    start.len() - 1,
                ),
                advanced(self.state, i as int) == advanced(seed, start.len() - 1),
            decreases i,
        {
            let n: usize = items.len();
            let drawn: usize = self.next() as usize;
            let j: usize = drawn % (i + 1);
            swap(items, i, j);
            i -= 1;
        }
    }
}

/// The places `0` to `n - 1`.
pub open spec fn places(n: int) -> Seq<usize> {
    Seq::new(n as nat, |i: int| i as usize)
}

/// The hidden neurons in the order that a seed gives.
pub open spec fn random_uuids(hidden: Seq<Seq<char>>, seed: u64) -> Seq<Seq<char>> {
    let order = shuffled(places(hidden.len() as int), seed, hidden.len() - 1);
    Seq::new(hidden.len(), |i: int| hidden[order[i] as int])
}

/// The hidden neurons of a creature, shuffled by a seed.
pub fn random_order(creature: &Creature, seed: u64) -> (r: Vec<String>)
    ensures
        texts(r@) == random_uuids(hidden_uuids(creature.neurons@), seed),
{
    let mut hidden: Vec<String> = Vec::new();
    let mut order: Vec<usize> = Vec::new();
    let mut i: usize = 0;
    proof {
        assert(texts(hidden@) =~= Seq::<Seq<char>>::empty());
        assert(order@ =~= places(0));
    }
    while i < creature.neurons.len()
        invariant
            i <= creature.neurons@.len(),
            hidden@.len() <= i,
            texts(hidden@) == hidden_uuids(creature.neurons@.take(i as int)),
            order@ == places(hidden@.len() as int),
        decreases creature.neurons.len() - i,
    {
        let ghost before = hidden@;
        assert(creature.neurons@.take(i + 1).drop_last() =~= creature.neurons@.take(i as int));
        if is_hidden_neuron(&creature.neurons[i]) {
            order.push(hidden.len());
            hidden.push(creature.neurons[i].uuid.clone());
            assert(texts(hidden@) =~= texts(before).push(creature.neurons@[i as int].uuid@));
            assert(order@ =~= places(hidden@.len() as int));
        }
        i += 1;
    }
    assert(creature.neurons@.take(i as int) =~= creature.neurons@);
    let mut generator = SplitMix64 { state: seed };
    let ghost n = hidden@.len() as int;
    let total: usize = hidden.len();
    generator.shuffle(&mut order);
    proof {
        lemma_shuffled_places(n, seed);
    }
    let mut out: Vec<String> = Vec::new();
    let mut k: usize = 0;
    while k < order.len()
        invariant
            k <= order@.len(),
            order@.len() == hidden@.len(),
            forall|j: int| 0 <= j < order@.len() ==> (#[trigger] order@[j]) < hidden@.len(),
            out@.len() == k,
            forall|j: int| 0 <= j < k ==> (#[trigger] out@[j])@ == hidden@[order@[j] as int]@,
        decreases order.len() - k,
    {
        assert(order@[k as int] < hidden@.len());
        out.push(hidden[order[k]].clone());
        k += 1;
    }
    proof {
        let names = hidden_uuids(creature.neurons@);
        assert(names.len() == n);
        assert(texts(out@) =~= random_uuids(names, seed)) by {
            assert forall|j: int| 0 <= j < n implies texts(out@)[j] == random_uuids(
                names,
                seed,
            )[j] by {
                assert(order@[j] < hidden@.len());
                assert(texts(hidden@)[order@[j] as int] == hidden@[order@[j] as int]@);
            }
        }
    }
    out
}

proof fn lemma_shuffled_places(n: int, seed: u64)
    requires
        0 <= n <= usize::MAX,
    ensures
        shuffled(places(n), seed, n - 1).len() == n,
        forall|i: int| 0 <= i < n ==> (#[trigger] shuffled(places(n), seed, n - 1)[i]) < n,
{
    let list = places(n);
    let out = shuffled(list, seed, n - 1);
    law_shuffle_is_a_permutation(list, seed, n - 1);
    list.to_multiset_ensures();
    out.to_multiset_ensures();
    assert forall|i: int| 0 <= i < n implies (#[trigger] out[i]) < n by {
        assert(out.contains(out[i]));
        assert(out.to_multiset().count(out[i]) > 0);
        assert(list.contains(out[i]));
        let k = choose|k: int| 0 <= k < list.len() && list[k] == out[i];
    }
}

proof fn lemma_places_distinct(n: int)
    requires
        0 <= n <= usize::MAX,
    ensures
        places(n).no_duplicates(),
{
    let list = places(n);
    assert forall|i: int, j: int| 0 <= i < list.len() && 0 <= j < list.len() && i != j implies list[
    i] != list[j] by {}
}

/// What is known of one neuron when neurons are ranked.
#[derive(Clone, Copy, Debug)]
pub struct NeuronSignals {
    /// Variance of the activation, if it was measured.
    pub variance: Option<Measure>,
    /// Mean magnitude of the activation, if it was measured.
    pub mean_abs: Option<Measure>,
    /// Width of the activation's range, if it was measured.
    pub range: Option<Measure>,
    /// Mean magnitude times outgoing weight, if it was measured.
    pub contribution: Option<Measure>,
    /// Synapses out of the neuron.
    pub fan_out: Measure,
    /// Growth units of the neuron and its own synapses.
    pub growth_saving: Measure,
    /// Whether the neuron only passes its input on.
    pub identity: bool,
    /// Growth units that a cut saves with everything that goes along.
    pub cascade_saving: Option<Measure>,
    /// Contribution per growth unit saved.
    pub risk_ratio: Measure,
    /// Sway over the outputs.
    pub importance: Option<Measure>,
    /// Mean magnitude times sway.
    pub effect: Measure,
}

/// The number, or infinity where there is none.
pub open spec fn known_or_last(value: Option<Measure>) -> Measure {
    match value {
        Some(value) => value,
        None => Measure { bits: INFINITE_MAGNITUDE },
    }
}

/// The number, or infinity where there is none that compares.
pub open spec fn ranked_value(value: Option<Measure>) -> Measure {
    match value {
        Some(value) => if value.nan() {
            Measure { bits: INFINITE_MAGNITUDE }
        } else {
            value
        },
        None => Measure { bits: INFINITE_MAGNITUDE },
    }
}

/// What a strategy ranks a neuron by; less comes first.
pub open spec fn key_of(strategy: OrderingStrategy, signals: NeuronSignals) -> Measure {
    match strategy {
        OrderingStrategy::Random => Measure { bits: 0 },
        OrderingStrategy::LowVariance => known_or_last(signals.variance),
        OrderingStrategy::LowMeanAbs => known_or_last(signals.mean_abs),
        OrderingStrategy::NarrowRange => known_or_last(signals.range),
        OrderingStrategy::LowOutgoingContribution => known_or_last(signals.contribution),
        OrderingStrategy::LowFanOut => signals.fan_out,
        OrderingStrategy::HighGrowthSaving => signals.growth_saving.opposite(),
        OrderingStrategy::IdentityFirst => if signals.identity {
            Measure { bits: 0 }
        } else {
            Measure { bits: ONE_BITS }
        },
        OrderingStrategy::CascadeSaving => match signals.cascade_saving {
            Some(saving) => saving.opposite(),
            None => (Measure { bits: 0 }).opposite(),
        },
        OrderingStrategy::CascadeRiskRatio => match (signals.mean_abs, signals.cascade_saving) {
            (Some(_), Some(saving)) => if (Measure { bits: 0 }).below(saving) {
                signals.risk_ratio
            } else {
                Measure { bits: INFINITE_MAGNITUDE }
            },
            _ => Measure { bits: INFINITE_MAGNITUDE },
        },
        OrderingStrategy::LowOutputSensitivity => ranked_value(signals.importance),
        OrderingStrategy::LowEstimatedEffect => if signals.mean_abs is Some
            && signals.importance is Some {
            ranked_value(Some(signals.effect))
        } else {
            Measure { bits: INFINITE_MAGNITUDE }
        },
    }
}

fn or_last(value: Option<Measure>) -> (r: Measure)
    ensures
        r == known_or_last(value),
{
    match value {
        Some(value) => value,
        None => Measure::infinity(),
    }
}

/// The number, or infinity where there is none that compares.
pub fn rankable(value: Option<Measure>) -> (r: Measure)
    ensures
        r == ranked_value(value),
        !r.nan(),
{
    match value {
        Some(value) => {
            if value.is_nan() {
                Measure::infinity()
            } else {
                value
            }
        },
        None => Measure::infinity(),
    }
}

/// What a strategy ranks a neuron by; less comes first.
pub fn rank_key(strategy: OrderingStrategy, signals: &NeuronSignals) -> (r: Measure)
    ensures
        r == key_of(strategy, *signals),
{
    match strategy {
        OrderingStrategy::Random => Measure::zero(),
        OrderingStrategy::LowVariance => or_last(signals.variance),
        OrderingStrategy::LowMeanAbs => or_last(signals.mean_abs),
        OrderingStrategy::NarrowRange => or_last(signals.range),
        OrderingStrategy::LowOutgoingContribution => or_last(signals.contribution),
        OrderingStrategy::LowFanOut => signals.fan_out,
        OrderingStrategy::HighGrowthSaving => signals.growth_saving.negated(),
        OrderingStrategy::IdentityFirst => if signals.identity {
            Measure::zero()
        } else {
            Measure::one()
        },
        OrderingStrategy::CascadeSaving => match signals.cascade_saving {
            Some(saving) => saving.negated(),
            None => Measure::zero().negated(),
        },
        OrderingStrategy::CascadeRiskRatio => match (signals.mean_abs, signals.cascade_saving) {
            (Some(_), Some(saving)) => if Measure::zero().lt(saving) {
                signals.risk_ratio
            } else {
                Measure::infinity()
            },
            _ => Measure::infinity(),
        },
        OrderingStrategy::LowOutputSensitivity => rankable(signals.importance),
        OrderingStrategy::LowEstimatedEffect => match (signals.mean_abs, signals.importance) {
            (Some(_), Some(_)) => rankable(Some(signals.effect)),
            _ => Measure::infinity(),
        },
    }
}

/// A neuron with what it is ranked by.
pub struct Keyed {
    /// Less comes first.
    pub key: Measure,
    /// The neuron.
    pub uuid: String,
}

impl Ranked for Keyed {
    open spec fn before(self, other: Keyed) -> bool {
        self.key.below(other.key)
    }

    fn is_before(&self, other: &Keyed) -> (b: bool) {
        self.key.lt(other.key)
    }
}

/// Ranking by key is a strict weak order where every key compares.
pub proof fn law_keys_are_well_ranked(keyed: Seq<Keyed>)
    requires
        forall|i: int| 0 <= i < keyed.len() ==> !(#[trigger] keyed[i]).key.nan(),
    ensures
        well_ranked(keyed),
{
    assert forall|a: Keyed, b: Keyed, c: Keyed|
        keyed.contains(a) && keyed.contains(b) && keyed.contains(c) && !(#[trigger] a.before(b))
            && !(#[trigger] b.before(c)) implies !a.before(c) by {
        let i = choose|i: int| 0 <= i < keyed.len() && keyed[i] == a;
        let j = choose|j: int| 0 <= j < keyed.len() && keyed[j] == b;
        let k = choose|k: int| 0 <= k < keyed.len() && keyed[k] == c;
        assert(!keyed[i].key.nan() && !keyed[j].key.nan() && !keyed[k].key.nan());
    }
}

/// The first place from `from` on whose text is not in `out`.
pub open spec fn next_unused(source: Seq<Seq<char>>, from: int, out: Seq<Seq<char>>) -> int
    decreases source.len() - from,
{
    if from < 0 || from >= source.len() || !out.contains(source[from]) {
        from
    } else {
        next_unused(source, from + 1, out)
    }
}

/// `out` with those of `other` that it does not hold yet, in order.
pub open spec fn drained(out: Seq<Seq<char>>, other: Seq<Seq<char>>) -> Seq<Seq<char>>
    decreases other.len(),
{
    if other.len() == 0 {
        out
    } else {
        let head = drained(out, other.drop_last());
        if head.contains(other.last()) {
            head
        } else {
            head.push(other.last())
        }
    }
}

/// Two orders of the same neurons blended: a visit goes to the random order
/// while fewer than are due have gone to it, and to the ranking otherwise;
/// where one runs out the other fills the rest.
pub open spec fn blended(
    ranked: Seq<Seq<char>>,
    random: Seq<Seq<char>>,
    due: Seq<usize>,
    out: Seq<Seq<char>>,
    ranked_at: int,
    random_at: int,
    taken: int,
) -> Seq<Seq<char>>
    decreases ranked.len() - out.len(),
{
    if out.len() >= ranked.len() {
        out
    } else if taken < due[out.len() as int] {
        let at = next_unused(random, random_at, out);
        if at >= random.len() {
            drained(out, ranked)
        } else {
            blended(ranked, random, due, out.push(random[at]), ranked_at, at, taken + 1)
        }
    } else {
        let at = next_unused(ranked, ranked_at, out);
        if at >= ranked.len() {
            drained(out, random)
        } else {
            blended(ranked, random, due, out.push(ranked[at]), at, random_at, taken)
        }
    }
}

fn skip_used(source: &Vec<String>, from: usize, out: &Vec<String>) -> (at: usize)
    requires
        from <= source@.len(),
    ensures
        at == next_unused(texts(source@), from as int, texts(out@)),
        from <= at <= source@.len(),
{
    let mut at: usize = from;
    while at < source.len() && holds(out, &source[at])
        invariant
            from <= at <= source@.len(),
            next_unused(texts(source@), from as int, texts(out@)) == next_unused(
                texts(source@),
                at as int,
                texts(out@),
            ),
        decreases source.len() - at,
    {
        assert(texts(source@)[at as int] == source@[at as int]@);
        at += 1;
    }
    proof {
        if at < source.len() {
            assert(texts(source@)[at as int] == source@[at as int]@);
        }
    }
    at
}

fn drain(out: &mut Vec<String>, other: &Vec<String>)
    ensures
        texts(final(out)@) == drained(texts(old(out)@), texts(other@)),
{
    let ghost start = texts(out@);
    let ghost all = texts(other@);
    let mut i: usize = 0;
    assert(all.take(0) =~= Seq::empty());
    while i < other.len()
        invariant
            i <= other@.len(),
            all == texts(other@),
            texts(out@) == drained(start, all.take(i as int)),
        decreases other.len() - i,
    {
        let ghost before = out@;
        proof {
            assert(all.take(i + 1).drop_last() =~= all.take(i as int));
            assert(all.take(i + 1).last() == other@[i as int]@);
        }
        if !holds(out, &other[i]) {
            out.push(other[i].clone());
            assert(texts(out@) =~= texts(before).push(other@[i as int]@));
        }
        i += 1;
    }
    assert(all.take(i as int) =~= all);
}

/// Blends a ranking with a random order of the same neurons. `due` tells, for
/// each visit, how many of the visits up to it are left to chance.
pub fn blend(ranked: Vec<String>, random: &Vec<String>, due: &Vec<usize>, quota: Measure) -> (r:
    Vec<String>)
    requires
        due@.len() >= ranked@.len(),
    ensures
        texts(r@) == if quota.at_most(Measure { bits: 0 }) {
            texts(ranked@)
        } else {
            blended(texts(ranked@), texts(random@), due@, Seq::empty(), 0, 0, 0)
        },
{
    if quota.le(Measure::zero()) {
        return ranked;
    }
    let ghost by_rank = texts(ranked@);
    let ghost by_chance = texts(random@);
    let total: usize = ranked.len();
    let mut out: Vec<String> = Vec::new();
    let mut ranked_at: usize = 0;
    let mut random_at: usize = 0;
    let mut taken: usize = 0;
    assert(texts(out@) =~= Seq::<Seq<char>>::empty());
    while out.len() < total
        invariant
            !quota.at_most(Measure { bits: 0 }),
            due@.len() >= ranked@.len(),
            total == ranked@.len(),
            by_rank == texts(ranked@),
            by_chance == texts(random@),
            ranked_at <= ranked@.len(),
            random_at <= random@.len(),
            taken <= out@.len(),
            blended(
                by_rank,
                by_chance,
                due@,
                texts(out@),
                ranked_at as int,
                random_at as int,
                taken as int,
            ) == blended(by_rank, by_chance, due@, Seq::empty(), 0, 0, 0),
        decreases total - out.len(),
    {
        let ghost before = out@;
        if taken < due[out.len()] {
            random_at = skip_used(random, random_at, &out);
            if random_at >= random.len() {
                drain(&mut out, &ranked);
                return out;
            }
            out.push(random[random_at].clone());
            taken += 1;
            assert(texts(out@) =~= texts(before).push(by_chance[random_at as int]));
        } else {
            ranked_at = skip_used(&ranked, ranked_at, &out);
            if ranked_at >= ranked.len() {
                drain(&mut out, random);
                return out;
            }
            out.push(ranked[ranked_at].clone());
            assert(texts(out@) =~= texts(before).push(by_rank[ranked_at as int]));
        }
    }
    out
}

/// Two lists hold the same texts, each of them once.
pub open spec fn same_once(a: Seq<Seq<char>>, b: Seq<Seq<char>>) -> bool {
    a.no_duplicates() && b.no_duplicates() && a.to_set() == b.to_set()
}

proof fn lemma_drained(out: Seq<Seq<char>>, other: Seq<Seq<char>>)
    requires
        out.no_duplicates(),
    ensures
        drained(out, other).no_duplicates(),
        drained(out, other).to_set() == out.to_set().union(other.to_set()),
    decreases other.len(),
{
    if other.len() > 0 {
        let init = other.drop_last();
        lemma_drained(out, init);
        let head = drained(out, init);
        let x = other.last();
        let all = drained(out, other);
        assert(other =~= init.push(x));
        lemma_push_set(init, x);
        if head.contains(x) {
            assert(head.to_set().contains(x));
            assert(all.to_set() =~= out.to_set().union(other.to_set()));
        } else {
            lemma_push_set(head, x);
            assert(all.to_set() =~= out.to_set().union(other.to_set()));
        }
    } else {
        assert(out.to_set().union(other.to_set()) =~= out.to_set());
    }
}

proof fn lemma_push_set(list: Seq<Seq<char>>, x: Seq<char>)
    ensures
        list.push(x).to_set() == list.to_set().insert(x),
{
    let all = list.push(x);
    assert forall|y: Seq<char>| all.to_set().contains(y) <==> list.to_set().insert(x).contains(
        y,
    ) by {
        if all.contains(y) {
            let k = choose|k: int| 0 <= k < all.len() && all[k] == y;
            if k < list.len() {
                assert(list[k] == y);
            }
        }
        if list.contains(y) {
            let k = choose|k: int| 0 <= k < list.len() && list[k] == y;
            assert(all[k] == y);
        }
        assert(all[list.len() as int] == x);
    }
    assert(all.to_set() =~= list.to_set().insert(x));
}

proof fn lemma_next_unused(source: Seq<Seq<char>>, from: int, out: Seq<Seq<char>>)
    requires
        0 <= from <= source.len(),
    ensures
        from <= next_unused(source, from, out) <= source.len(),
        next_unused(source, from, out) < source.len() ==> !out.contains(
            source[next_unused(source, from, out)],
        ),
    decreases source.len() - from,
{
    if from < source.len() && out.contains(source[from]) {
        lemma_next_unused(source, from + 1, out);
    }
}

proof fn lemma_blended(
    ranked: Seq<Seq<char>>,
    random: Seq<Seq<char>>,
    due: Seq<usize>,
    out: Seq<Seq<char>>,
    ranked_at: int,
    random_at: int,
    taken: int,
)
    requires
        same_once(ranked, random),
        out.no_duplicates(),
        out.to_set().subset_of(ranked.to_set()),
        out.len() <= ranked.len(),
        0 <= ranked_at <= ranked.len(),
        0 <= random_at <= random.len(),
    ensures
        same_once(
            blended(ranked, random, due, out, ranked_at, random_at, taken),
            ranked,
        ),
    decreases ranked.len() - out.len(),
{
    ranked.unique_seq_to_set();
    out.unique_seq_to_set();
    if out.len() >= ranked.len() {
        vstd::set_lib::lemma_subset_equality(out.to_set(), ranked.to_set());
    } else {
        let chance = taken < due[out.len() as int];
        let source = if chance {
            random
        } else {
            ranked
        };
        let other = if chance {
            ranked
        } else {
            random
        };
        let from = if chance {
            random_at
        } else {
            ranked_at
        };
        let at = next_unused(source, from, out);
        lemma_next_unused(source, from, out);
        if at >= source.len() {
            lemma_drained(out, other);
            assert(out.to_set().union(other.to_set()) =~= ranked.to_set());
        } else {
            let x = source[at];
            let more = out.push(x);
            lemma_push_set(out, x);
            assert(source.contains(x));
            assert(source.to_set().contains(x));
            assert(more.no_duplicates()) by {
                assert forall|i: int, j: int|
                    0 <= i < more.len() && 0 <= j < more.len() && i != j implies more[i]
                    != more[j] by {
                    if i < out.len() && j == out.len() {
                        assert(out.contains(out[i]));
                    }
                    if j < out.len() && i == out.len() {
                        assert(out.contains(out[j]));
                    }
                }
            }
            if chance {
                lemma_blended(ranked, random, due, more, ranked_at, at, taken + 1);
            } else {
                lemma_blended(ranked, random, due, more, at, random_at, taken);
            }
        }
    }
}

/// Blending two orders of the same neurons visits each of them once.
pub proof fn law_blend_visits_everyone_once(
    ranked: Seq<Seq<char>>,
    random: Seq<Seq<char>>,
    due: Seq<usize>,
)
    requires
        same_once(ranked, random),
    ensures
        same_once(blended(ranked, random, due, Seq::empty(), 0, 0, 0), ranked),
{
    assert(Seq::<Seq<char>>::empty().to_set().subset_of(ranked.to_set()));
    lemma_blended(ranked, random, due, Seq::empty(), 0, 0, 0);
}

/// The neurons with what they are ranked by.
pub open spec fn keyed_list(random: Seq<String>, keys: Seq<Measure>) -> Seq<Keyed> {
    Seq::new(random.len(), |i: int| Keyed { key: keys[i], uuid: random[i] })
}

/// The neurons by rank, level ones in random order.
pub open spec fn ranked_uuids(random: Seq<String>, keys: Seq<Measure>) -> Seq<Seq<char>> {
    let ranked = sorted(keyed_list(random, keys));
    Seq::new(ranked.len(), |i: int| ranked[i].uuid@)
}

/// The order in which neurons are visited.
pub open spec fn visit_order(
    random: Seq<String>,
    keys: Seq<Measure>,
    cfg: OrderingConfig,
    due: Seq<usize>,
) -> Seq<Seq<char>> {
    if cfg.strategy == OrderingStrategy::Random {
        texts(random)
    } else if cfg.random_quota.at_most(Measure { bits: 0 }) {
        ranked_uuids(random, keys)
    } else {
        blended(ranked_uuids(random, keys), texts(random), due, Seq::empty(), 0, 0, 0)
    }
}

/// The order in which neurons are visited: `random` is a shuffle of them, and
/// `keys` what each of it is ranked by.
pub fn hidden_order(
    random: Vec<String>,
    keys: &Vec<Measure>,
    cfg: OrderingConfig,
    due: &Vec<usize>,
) -> (r: Vec<String>)
    requires
        keys@.len() == random@.len(),
        due@.len() >= random@.len(),
    ensures
        texts(r@) == visit_order(random@, keys@, cfg, due@),
{
    if cfg.strategy == OrderingStrategy::Random {
        return random;
    }
    let mut keyed: Vec<Keyed> = Vec::new();
    let mut i: usize = 0;
    while i < random.len()
        invariant
            i <= random@.len(),
            keys@.len() == random@.len(),
            keyed@ == keyed_list(random@, keys@).take(i as int),
        decreases random.len() - i,
    {
        keyed.push(Keyed { key: keys[i], uuid: random[i].clone() });
        i += 1;
        assert(keyed@ =~= keyed_list(random@, keys@).take(i as int));
    }
    assert(keyed_list(random@, keys@).take(i as int) =~= keyed_list(random@, keys@));
    let sorted_keys = stable_sort(keyed);
    let mut ranked: Vec<String> = Vec::new();
    let mut k: usize = 0;
    while k < sorted_keys.len()
        invariant
            k <= sorted_keys@.len(),
            ranked@.len() == k,
            forall|j: int| 0 <= j < k ==> (#[trigger] ranked@[j])@ == sorted_keys@[j].uuid@,
        decreases sorted_keys.len() - k,
    {
        ranked.push(sorted_keys[k].uuid.clone());
        k += 1;
    }
    proof {
        assert(texts(ranked@) =~= ranked_uuids(random@, keys@));
        law_sorted_is_a_permutation(keyed_list(random@, keys@));
    }
    blend(ranked, &random, due, cfg.random_quota)
}

proof fn lemma_ranked_uuids(random: Seq<String>, keys: Seq<Measure>)
    requires
        keys.len() == random.len(),
        texts(random).no_duplicates(),
    ensures
        same_once(ranked_uuids(random, keys), texts(random)),
{
    let keyed = keyed_list(random, keys);
    let ranked = sorted(keyed);
    let names = ranked_uuids(random, keys);
    let all = texts(random);
    law_sorted_is_a_permutation(keyed);
    keyed.to_multiset_ensures();
    ranked.to_multiset_ensures();
    assert(keyed.no_duplicates()) by {
        assert forall|i: int, j: int|
            0 <= i < keyed.len() && 0 <= j < keyed.len() && i != j implies keyed[i]
            != keyed[j] by {
            assert(all[i] != all[j]);
        }
    }
    keyed.lemma_multiset_has_no_duplicates();
    ranked.lemma_multiset_has_no_duplicates_conv();
    assert forall|x: Seq<char>| names.to_set().contains(x) <==> all.to_set().contains(x) by {
        if names.contains(x) {
            let k = choose|k: int| 0 <= k < names.len() && names[k] == x;
            assert(ranked.contains(ranked[k]));
            assert(keyed.contains(ranked[k]));
            let i = choose|i: int| 0 <= i < keyed.len() && keyed[i] == ranked[k];
            assert(all[i] == x);
        }
        if all.contains(x) {
            let i = choose|i: int| 0 <= i < all.len() && all[i] == x;
            assert(keyed.contains(keyed[i]));
            assert(ranked.contains(keyed[i]));
            let k = choose|k: int| 0 <= k < ranked.len() && ranked[k] == keyed[i];
            assert(names[k] == x);
        }
    }
    assert(names.to_set() =~= all.to_set());
    assert(names.no_duplicates()) by {
        assert forall|i: int, j: int|
            0 <= i < names.len() && 0 <= j < names.len() && i != j implies names[i]
            != names[j] by {
            assert(ranked[i] != ranked[j]);
            assert(ranked.contains(ranked[i]) && ranked.contains(ranked[j]));
            assert(keyed.contains(ranked[i]) && keyed.contains(ranked[j]));
            let a = choose|a: int| 0 <= a < keyed.len() && keyed[a] == ranked[i];
            let b = choose|b: int| 0 <= b < keyed.len() && keyed[b] == ranked[j];
            assert(a != b);
            assert(all[a] != all[b]);
        }
    }
}

/// Whatever the strategy and the share left to chance, every hidden neuron is
/// visited once.
pub proof fn law_every_strategy_visits_everyone_once(
    random: Seq<String>,
    keys: Seq<Measure>,
    cfg: OrderingConfig,
    due: Seq<usize>,
)
    requires
        keys.len() == random.len(),
        texts(random).no_duplicates(),
    ensures
        same_once(visit_order(random, keys, cfg, due), texts(random)),
{
    lemma_ranked_uuids(random, keys);
    if cfg.strategy != OrderingStrategy::Random && !cfg.random_quota.at_most(
        Measure { bits: 0 },
    ) {
        law_blend_visits_everyone_once(ranked_uuids(random, keys), texts(random), due);
    }
}

/// Without a share left to chance, neurons whose keys compare are visited in
/// the order of their keys.
pub proof fn law_ranking_follows_the_keys(random: Seq<String>, keys: Seq<Measure>)
    requires
        keys.len() == random.len(),
        forall|i: int| 0 <= i < keys.len() ==> !(#[trigger] keys[i]).nan(),
    ensures
        in_order(sorted(keyed_list(random, keys))),
{
    let keyed = keyed_list(random, keys);
    assert forall|i: int| 0 <= i < keyed.len() implies !(#[trigger] keyed[i]).key.nan() by {
        assert(!keys[i].nan());
    }
    law_keys_are_well_ranked(keyed);
    law_sorted_is_in_order(keyed);
}

/// A seed gives a shuffle of the hidden neurons: each of them once, if no uuid
/// occurs twice.
pub proof fn law_random_order_visits_everyone_once(hidden: Seq<Seq<char>>, seed: u64)
    requires
        hidden.no_duplicates(),
        hidden.len() <= usize::MAX,
    ensures
        same_once(random_uuids(hidden, seed), hidden),
{
    let n = hidden.len() as int;
    let list = places(n);
    let order = shuffled(list, seed, n - 1);
    let names = random_uuids(hidden, seed);
    lemma_shuffled_places(n, seed);
    lemma_places_distinct(n);
    law_shuffle_is_a_permutation(list, seed, n - 1);
    list.lemma_multiset_has_no_duplicates();
    order.lemma_multiset_has_no_duplicates_conv();
    list.to_multiset_ensures();
    order.to_multiset_ensures();
    assert(names.no_duplicates()) by {
        assert forall|i: int, j: int|
            0 <= i < names.len() && 0 <= j < names.len() && i != j implies names[i]
            != names[j] by {
            assert(order[i] != order[j]);
            assert(order[i] < n && order[j] < n);
            assert(hidden[order[i] as int] != hidden[order[j] as int]);
        }
    }
    assert forall|x: Seq<char>| names.to_set().contains(x) <==> hidden.to_set().contains(x) by {
        if names.contains(x) {
            let k = choose|k: int| 0 <= k < names.len() && names[k] == x;
            assert(order[k] < n);
            assert(hidden[order[k] as int] == x);
        }
        if hidden.contains(x) {
            let i = choose|i: int| 0 <= i < hidden.len() && hidden[i] == x;
            assert(list[i] == i as usize);
            assert(list.contains(i as usize));
            assert(list.to_multiset().count(i as usize) > 0);
            assert(order.contains(i as usize));
            let k = choose|k: int| 0 <= k < order.len() && order[k] == i as usize;
            assert(names[k] == x);
        }
    }
    assert(names.to_set() =~= hidden.to_set());
}

/// Each strategy ranks by its own signal, and by nothing else: the flattest, the
/// quietest, the tightest or the least contributing neuron has the smallest key,
/// and one that was not measured ranks last; the fewest targets and the largest
/// savings come first; pass-through neurons come before others; a risk ratio
/// counts only where something is saved; and what does not compare ranks last.
pub proof fn law_each_strategy_ranks_by_its_own_signal(s: NeuronSignals)
    ensures
        ({
            let key = |strategy: OrderingStrategy| key_of(strategy, s);
            let last = Measure { bits: 0x7FF0_0000_0000_0000 };
            &&& key(OrderingStrategy::LowVariance) == (if s.variance is Some {
                s.variance->0
            } else {
                last
            })
            &&& key(OrderingStrategy::LowMeanAbs) == (if s.mean_abs is Some {
                s.mean_abs->0
            } else {
                last
            })
            &&& key(OrderingStrategy::NarrowRange) == (if s.range is Some {
                s.range->0
            } else {
                last
            })
            &&& key(OrderingStrategy::LowOutgoingContribution) == (if s.contribution is Some {
                s.contribution->0
            } else {
                last
            })
            &&& key(OrderingStrategy::LowFanOut) == s.fan_out
            &&& key(OrderingStrategy::HighGrowthSaving).position() == -s.growth_saving.position()
            &&& key(OrderingStrategy::HighGrowthSaving).nan() == s.growth_saving.nan()
            &&& key(OrderingStrategy::IdentityFirst).bits == (if s.identity {
                0u64
            } else {
                0x3FF0_0000_0000_0000
            })
            &&& key(OrderingStrategy::CascadeSaving).position() == -(if s.cascade_saving is Some {
                s.cascade_saving->0.position()
            } else {
                0
            })
            &&& s.mean_abs is Some && s.cascade_saving is Some && !s.cascade_saving->0.nan()
                && s.cascade_saving->0.position() > 0 ==> key(OrderingStrategy::CascadeRiskRatio)
                == s.risk_ratio
            &&& s.mean_abs is None || s.cascade_saving is None || s.cascade_saving->0.nan()
                || s.cascade_saving->0.position() <= 0 ==> key(OrderingStrategy::CascadeRiskRatio)
                == last
            &&& key(OrderingStrategy::LowOutputSensitivity) == (if s.importance is Some
                && !s.importance->0.nan() {
                s.importance->0
            } else {
                last
            })
            &&& key(OrderingStrategy::LowEstimatedEffect) == (if s.mean_abs is Some
                && s.importance is Some && !s.effect.nan() {
                s.effect
            } else {
                last
            })
        }),
{
}

/// Of two neurons the one with the smaller signal comes first under the strategy
/// of that signal, whatever else is known of them.
pub proof fn law_smaller_signals_come_first(a: NeuronSignals, b: NeuronSignals)
    ensures
        a.variance is Some && b.variance is Some && a.variance->0.below(b.variance->0) ==> key_of(
            OrderingStrategy::LowVariance,
            a,
        ).below(key_of(OrderingStrategy::LowVariance, b)),
        a.mean_abs is Some && b.mean_abs is Some && a.mean_abs->0.below(b.mean_abs->0) ==> key_of(
            OrderingStrategy::LowMeanAbs,
            a,
        ).below(key_of(OrderingStrategy::LowMeanAbs, b)),
        a.range is Some && b.range is Some && a.range->0.below(b.range->0) ==> key_of(
            OrderingStrategy::NarrowRange,
            a,
        ).below(key_of(OrderingStrategy::NarrowRange, b)),
        a.contribution is Some && b.contribution is Some && a.contribution->0.below(
            b.contribution->0,
        ) ==> key_of(OrderingStrategy::LowOutgoingContribution, a).below(
            key_of(OrderingStrategy::LowOutgoingContribution, b),
        ),
        a.fan_out.below(b.fan_out) ==> key_of(OrderingStrategy::LowFanOut, a).below(
            key_of(OrderingStrategy::LowFanOut, b),
        ),
        b.growth_saving.below(a.growth_saving) ==> key_of(
            OrderingStrategy::HighGrowthSaving,
            a,
        ).below(key_of(OrderingStrategy::HighGrowthSaving, b)),
        a.identity && !b.identity ==> key_of(OrderingStrategy::IdentityFirst, a).below(
            key_of(OrderingStrategy::IdentityFirst, b),
        ),
        a.cascade_saving is Some && b.cascade_saving is Some && b.cascade_saving->0.below(
            a.cascade_saving->0,
        ) ==> key_of(OrderingStrategy::CascadeSaving, a).below(
            key_of(OrderingStrategy::CascadeSaving, b),
        ),
        a.importance is Some && b.importance is Some && a.importance->0.below(b.importance->0)
            ==> key_of(OrderingStrategy::LowOutputSensitivity, a).below(
            key_of(OrderingStrategy::LowOutputSensitivity, b),
        ),
{
    if b.growth_saving.below(a.growth_saving) {
        crate::measure::law_negation_reverses_order(b.growth_saving, a.growth_saving);
    }
    if a.cascade_saving is Some && b.cascade_saving is Some {
        crate::measure::law_negation_reverses_order(b.cascade_saving->0, a.cascade_saving->0);
    }
}

/// A share left to chance is accepted exactly if it is at least nothing and less
/// than all.
pub proof fn law_shares_are_less_than_all(quota: Measure)
    ensures
        valid_quota(quota) <==> !quota.nan() && 0 <= quota.position() < 0x3FF0_0000_0000_0000,
{
}

/// Where keys compare and nothing is left to chance, the neurons are visited by
/// key, smallest first, and those with level keys in random order; each once.
/// The random strategy keeps the random order.
pub proof fn law_visits_go_by_key(
    random: Seq<String>,
    keys: Seq<Measure>,
    cfg: OrderingConfig,
    due: Seq<usize>,
) -> (places: Seq<int>)
    requires
        keys.len() == random.len(),
        forall|i: int| 0 <= i < keys.len() ==> !(#[trigger] keys[i]).nan(),
        cfg.strategy == OrderingStrategy::Random || (!cfg.random_quota.nan()
            && cfg.random_quota.position() <= 0),
    ensures
        ({
            let visits = visit_order(random, keys, cfg, due);
            &&& visits.len() == random.len()
            &&& places.len() == random.len()
            &&& forall|k: int|
                0 <= k < places.len() ==> 0 <= (#[trigger] places[k]) < random.len() && visits[k]
                    == random[places[k]]@
            &&& forall|i: int, j: int|
                #![trigger places[i], places[j]]
                0 <= i < j < places.len() ==> places[i] != places[j] && if cfg.strategy
                    == OrderingStrategy::Random {
                    places[i] < places[j]
                } else {
                    keys[places[i]].position() < keys[places[j]].position() || (
                    keys[places[i]].position() == keys[places[j]].position() && places[i]
                        < places[j])
                }
        }),
{
    let visits = visit_order(random, keys, cfg, due);
    if cfg.strategy == OrderingStrategy::Random {
        Seq::new(random.len(), |k: int| k)
    } else {
        let keyed = keyed_list(random, keys);
        assert forall|i: int| 0 <= i < keyed.len() implies !(#[trigger] keyed[i]).key.nan() by {
            assert(!keys[i].nan());
        }
        law_keys_are_well_ranked(keyed);
        law_sorted_is_in_order(keyed);
        let out = sorted(keyed);
        let places = law_sorted_is_stable(keyed);
        assert forall|k: int| 0 <= k < places.len() implies 0 <= (#[trigger] places[k])
            < random.len() && visits[k] == random[places[k]]@ by {
            assert(out[k] == keyed[places[k]]);
        }
        assert forall|i: int, j: int|
            #![trigger places[i], places[j]]
            0 <= i < j < places.len() implies places[i] != places[j] && (
        keys[places[i]].position() < keys[places[j]].position() || (keys[places[i]].position()
            == keys[places[j]].position() && places[i] < places[j])) by {
            assert(out[i] == keyed[places[i]] && out[j] == keyed[places[j]]);
            assert(!out[j].before(out[i]));
            assert(!keys[places[i]].nan() && !keys[places[j]].nan());
        }
        places
    }
}

/// The neuron is the first of its order that was not visited before.
pub open spec fn first_unvisited(
    source: Seq<Seq<char>>,
    before: Seq<Seq<char>>,
    x: Seq<char>,
) -> bool {
    exists|p: int|
        0 <= p < source.len() && #[trigger] source[p] == x && !before.contains(x) && forall|q: int|
            0 <= q < p ==> before.contains(#[trigger] source[q])
}

/// The visit at `k` goes to the random order exactly if fewer of the visits before
/// it did than are due, and it goes to the first neuron of its order that was not
/// visited before.
pub open spec fn goes_where_due(
    ranked: Seq<Seq<char>>,
    random: Seq<Seq<char>>,
    due: Seq<usize>,
    visits: Seq<Seq<char>>,
    chance: Seq<bool>,
    k: int,
) -> bool {
    &&& chance[k] <==> true_places(chance.take(k)).len() < due[k]
    &&& chance[k] ==> first_unvisited(random, visits.take(k), visits[k])
    &&& !chance[k] ==> first_unvisited(ranked, visits.take(k), visits[k])
}

proof fn lemma_all_used_before(source: Seq<Seq<char>>, from: int, out: Seq<Seq<char>>)
    requires
        0 <= from <= source.len(),
    ensures
        forall|q: int|
            from <= q < next_unused(source, from, out) ==> out.contains(#[trigger] source[q]),
    decreases source.len() - from,
{
    if from < source.len() && out.contains(source[from]) {
        lemma_all_used_before(source, from + 1, out);
    }
}

proof fn lemma_next_is_the_first_unvisited(
    source: Seq<Seq<char>>,
    from: int,
    out: Seq<Seq<char>>,
    all: Set<Seq<char>>,
)
    requires
        0 <= from <= source.len(),
        source.no_duplicates(),
        source.to_set() == all,
        out.no_duplicates(),
        out.to_set().subset_of(all),
        out.len() < source.len(),
        forall|q: int| 0 <= q < from ==> out.contains(#[trigger] source[q]),
    ensures
        from <= next_unused(source, from, out) < source.len(),
        all.contains(source[next_unused(source, from, out)]),
        !out.contains(source[next_unused(source, from, out)]),
        first_unvisited(source, out, source[next_unused(source, from, out)]),
        forall|q: int|
            0 <= q < next_unused(source, from, out) ==> out.contains(#[trigger] source[q]),
{
    let at = next_unused(source, from, out);
    lemma_next_unused(source, from, out);
    lemma_all_used_before(source, from, out);
    source.unique_seq_to_set();
    out.unique_seq_to_set();
    if at >= source.len() {
        assert forall|x: Seq<char>| source.to_set().contains(
            x,
        ) implies #[trigger] out.to_set().contains(x) by {
            let q = choose|q: int| 0 <= q < source.len() && source[q] == x;
            assert(out.contains(source[q]));
        }
        assert(source.to_set().subset_of(out.to_set()));
        vstd::set_lib::lemma_len_subset(source.to_set(), out.to_set());
        assert(false);
    }
    assert(source.contains(source[at]));
    assert(source.to_set().contains(source[at]));
}

proof fn lemma_blend_goes_where_due(
    ranked: Seq<Seq<char>>,
    random: Seq<Seq<char>>,
    due: Seq<usize>,
    out: Seq<Seq<char>>,
    ranked_at: int,
    random_at: int,
    taken: int,
    chosen: Seq<bool>,
) -> (chance: Seq<bool>)
    requires
        same_once(ranked, random),
        out.no_duplicates(),
        out.to_set().subset_of(ranked.to_set()),
        out.len() <= ranked.len(),
        0 <= ranked_at <= ranked.len(),
        0 <= random_at <= random.len(),
        chosen.len() == out.len(),
        taken == true_places(chosen).len(),
        forall|q: int| 0 <= q < ranked_at ==> out.contains(#[trigger] ranked[q]),
        forall|q: int| 0 <= q < random_at ==> out.contains(#[trigger] random[q]),
        forall|k: int|
            0 <= k < out.len() ==> #[trigger] goes_where_due(ranked, random, due, out, chosen, k),
    ensures
        ({
            let visits = blended(ranked, random, due, out, ranked_at, random_at, taken);
            &&& chance.len() == visits.len()
            &&& visits.len() == ranked.len()
            &&& forall|k: int|
                0 <= k < visits.len() ==> #[trigger] goes_where_due(
                    ranked,
                    random,
                    due,
                    visits,
                    chance,
                    k,
                )
        }),
    decreases ranked.len() - out.len(),
{
    ranked.unique_seq_to_set();
    random.unique_seq_to_set();
    out.unique_seq_to_set();
    if out.len() >= ranked.len() {
        chosen
    } else {
        let turn = taken < due[out.len() as int];
        let at = if turn {
            lemma_next_is_the_first_unvisited(random, random_at, out, ranked.to_set());
            next_unused(random, random_at, out)
        } else {
            lemma_next_is_the_first_unvisited(ranked, ranked_at, out, ranked.to_set());
            next_unused(ranked, ranked_at, out)
        };
        let x = if turn {
            random[at]
        } else {
            ranked[at]
        };
        let more = out.push(x);
        let marks = chosen.push(turn);
        lemma_push_set(out, x);
        assert(more.no_duplicates()) by {
            assert forall|i: int, j: int|
                0 <= i < more.len() && 0 <= j < more.len() && i != j implies more[i]
                != more[j] by {
                if i < out.len() && j == out.len() {
                    assert(out.contains(out[i]));
                }
                if j < out.len() && i == out.len() {
                    assert(out.contains(out[j]));
                }
            }
        }
        assert(marks.drop_last() =~= chosen);
        assert forall|y: Seq<char>| out.contains(y) implies #[trigger] more.contains(y) by {
            let i = choose|i: int| 0 <= i < out.len() && out[i] == y;
            assert(more[i] == y);
        }
        assert forall|k: int| 0 <= k < more.len() implies #[trigger] goes_where_due(
            ranked,
            random,
            due,
            more,
            marks,
            k,
        ) by {
            assert(more.take(k) =~= out.take(k));
            assert(marks.take(k) =~= chosen.take(k));
            if k < out.len() {
                assert(goes_where_due(ranked, random, due, out, chosen, k));
                assert(marks[k] == chosen[k] && more[k] == out[k]);
            } else {
                assert(out.take(k) =~= out);
                assert(chosen.take(k) =~= chosen);
                assert(more[k] == x);
            }
        }
        if turn {
            lemma_blend_goes_where_due(
                ranked,
                random,
                due,
                more,
                ranked_at,
                at,
                taken + 1,
                marks,
            )
        } else {
            lemma_blend_goes_where_due(ranked, random, due, more, at, random_at, taken, marks)
        }
    }
}

/// Blending a ranking with a random order of the same neurons: each visit goes to
/// the random order exactly while fewer have than are due, and always to the
/// first neuron of its order that was not visited before.
pub proof fn law_blended_visits_go_where_due(
    ranked: Seq<Seq<char>>,
    random: Seq<Seq<char>>,
    due: Seq<usize>,
) -> (chance: Seq<bool>)
    requires
        same_once(ranked, random),
    ensures
        ({
            let visits = blended(ranked, random, due, Seq::empty(), 0, 0, 0);
            &&& visits.len() == ranked.len()
            &&& chance.len() == ranked.len()
            &&& forall|k: int|
                0 <= k < ranked.len() ==> #[trigger] goes_where_due(
                    ranked,
                    random,
                    due,
                    visits,
                    chance,
                    k,
                )
        }),
{
    assert(Seq::<Seq<char>>::empty().to_set().subset_of(ranked.to_set()));
    lemma_blend_goes_where_due(ranked, random, due, Seq::empty(), 0, 0, 0, Seq::empty())
}

/// A share left to chance only matters where there is one: above nothing, the
/// visits blend the ranking with the random order.
pub proof fn law_chance_takes_its_share(
    random: Seq<String>,
    keys: Seq<Measure>,
    cfg: OrderingConfig,
    due: Seq<usize>,
) -> (chance: Seq<bool>)
    requires
        keys.len() == random.len(),
        texts(random).no_duplicates(),
        cfg.strategy != OrderingStrategy::Random,
        !cfg.random_quota.nan(),
        cfg.random_quota.position() > 0,
    ensures
        ({
            let plain = OrderingConfig { random_quota: Measure { bits: 0 }, ..cfg };
            let ranked = visit_order(random, keys, plain, due);
            let visits = visit_order(random, keys, cfg, due);
            &&& visits.len() == random.len()
            &&& chance.len() == random.len()
            &&& forall|k: int|
                0 <= k < random.len() ==> #[trigger] goes_where_due(
                    ranked,
                    texts(random),
                    due,
                    visits,
                    chance,
                    k,
                )
        }),
{
    lemma_ranked_uuids(random, keys);
    law_sorted_is_a_permutation(keyed_list(random, keys));
    law_blended_visits_go_where_due(ranked_uuids(random, keys), texts(random), due)
}

/// A generator steps by a fixed amount and mixes its state into a number.
pub proof fn law_numbers_are_mixed_from_the_state(state: u64)
    ensures
        stepped(state) as int == (state + 0x9E37_79B9_7F4A_7C15) % 0x1_0000_0000_0000_0000,
        ({
            let x = state ^ (state >> 30);
            let y = x.wrapping_mul(0xBF58_476D_1CE4_E5B9);
            let z = (y ^ (y >> 27)).wrapping_mul(0x94D0_49BB_1331_11EB);
            mixed(state) == z ^ (z >> 31)
        }),
{
}

proof fn lemma_later_places_stay<T>(list: Seq<T>, state: u64, i: int, k: int)
    requires
        i < k < list.len(),
    ensures
        shuffled(list, state, i)[k] == list[k],
    decreases i,
{
    if i > 0 {
        let j = picked(stepped(state), i);
        vstd::arithmetic::div_mod::lemma_mod_bound((mixed(stepped(state)) as usize) as int, i + 1);
        lemma_later_places_stay(swapped(list, i, j), stepped(state), i - 1, k);
    }
}

/// A shuffle fills its places from the last one down: each with the entry that the
/// next number picks among all that are left, itself included; whoever stood
/// there takes the place of the picked one, and the rest is shuffled on.
pub proof fn law_shuffle_picks_among_what_is_left<T>(list: Seq<T>, state: u64, i: int)
    requires
        0 < i < list.len(),
    ensures
        ({
            let pick = (mixed(stepped(state)) as usize) as int % (i + 1);
            let rest = list.update(pick, list[i]).update(i, list[pick]);
            &&& shuffled(list, state, i)[i] == list[pick]
            &&& shuffled(list, state, i) == shuffled(rest, stepped(state), i - 1)
            &&& forall|k: int|
                i < k < list.len() ==> #[trigger] shuffled(list, state, i)[k] == list[k]
        }),
        shuffled(list, state, 0) == list,
{
    let pick = (mixed(stepped(state)) as usize) as int % (i + 1);
    vstd::arithmetic::div_mod::lemma_mod_bound((mixed(stepped(state)) as usize) as int, i + 1);
    let rest = list.update(pick, list[i]).update(i, list[pick]);
    assert(swapped(list, i, pick) =~= rest);
    lemma_later_places_stay(rest, stepped(state), i - 1, i);
    assert forall|k: int| i < k < list.len() implies #[trigger] shuffled(list, state, i)[k]
        == list[k] by {
        lemma_later_places_stay(list, state, i, k);
    }
}

/// Each strategy is known by its own name.
pub proof fn law_strategies_have_their_names()
    ensures
        strategy_name(OrderingStrategy::Random) == "random"@,
        strategy_name(OrderingStrategy::LowVariance) == "low-variance"@,
        strategy_name(OrderingStrategy::LowMeanAbs) == "low-mean-abs"@,
        strategy_name(OrderingStrategy::NarrowRange) == "narrow-range"@,
        strategy_name(OrderingStrategy::LowOutgoingContribution) == "low-outgoing-contribution"@,
        strategy_name(OrderingStrategy::LowFanOut) == "low-fan-out"@,
        strategy_name(OrderingStrategy::HighGrowthSaving) == "high-growth-saving"@,
        strategy_name(OrderingStrategy::IdentityFirst) == "identity-first"@,
        strategy_name(OrderingStrategy::CascadeSaving) == "cascade-saving"@,
        strategy_name(OrderingStrategy::CascadeRiskRatio) == "cascade-risk-ratio"@,
        strategy_name(OrderingStrategy::LowOutputSensitivity) == "low-output-sensitivity"@,
        strategy_name(OrderingStrategy::LowEstimatedEffect) == "low-estimated-effect"@,
{
}

/// What stands at those places of a list.
spec fn read_at<T>(list: Seq<T>, order: Seq<usize>) -> Seq<T> {
    Seq::new(order.len(), |i: int| list[order[i] as int])
}

proof fn lemma_shuffle_moves_places<T>(list: Seq<T>, order: Seq<usize>, state: u64, i: int)
    requires
        i < order.len() || i <= 0,
    ensures
        read_at(list, shuffled(order, state, i)) == shuffled(read_at(list, order), state, i),
    decreases i,
{
    if i > 0 {
        let j = picked(stepped(state), i);
        vstd::arithmetic::div_mod::lemma_mod_bound((mixed(stepped(state)) as usize) as int, i + 1);
        lemma_shuffle_moves_places(list, swapped(order, i, j), stepped(state), i - 1);
        assert(read_at(list, swapped(order, i, j)) =~= swapped(read_at(list, order), i, j));
    }
}

/// The random order is the shuffle of the hidden neurons with the generator at the
/// seed.
pub proof fn law_random_order_is_the_seeded_shuffle(hidden: Seq<Seq<char>>, seed: u64)
    requires
        hidden.len() <= usize::MAX,
    ensures
        random_uuids(hidden, seed) == shuffled(hidden, seed, hidden.len() - 1),
{
    let n = hidden.len() as int;
    lemma_shuffled_places(n, seed);
    lemma_shuffle_moves_places(hidden, places(n), seed, n - 1);
    assert(read_at(hidden, places(n)) =~= hidden);
    assert(random_uuids(hidden, seed) =~= read_at(hidden, shuffled(places(n), seed, n - 1)));
}

/// Drawing numbers steps the generator once for each.
pub proof fn law_draws_step_the_generator(state: u64, a: int, b: int)
    requires
        0 <= a,
        0 <= b,
    ensures
        advanced(state, 0) == state,
        advanced(state, 1) as int == (state + 0x9E37_79B9_7F4A_7C15) % 0x1_0000_0000_0000_0000,
        advanced(state, a + b) == advanced(advanced(state, a), b),
    decreases a,
{
    reveal_with_fuel(advanced, 2);
    if a > 0 {
        law_draws_step_the_generator(stepped(state), a - 1, b);
    }
}

} // verus!
