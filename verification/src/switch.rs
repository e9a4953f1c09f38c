//! A whole switch of a DiT to NVFP4: which layers change, how many, and that a second switch changes none.
use crate::arithmetic;
use crate::block::Part;
use crate::dit;
use crate::dit::{Conversion, CudaDit, Turn, PARTS};
use crate::model;
use crate::model::DType;
use crate::nvfp4::{Columns, Nvfp4Scale, Nvfp4Weight};
use crate::text;
use vstd::prelude::*;

verus! {

/// The name of the layer at a place among all the parts of all the blocks.
pub open spec fn place_name(place: int) -> Seq<char> {
    CudaDit::part_name((place / PARTS as int) as nat, dit::part_at(place % PARTS as int))
}

impl CudaDit {
    /// What becomes of the layer at a place where the layers in `held` run in NVFP4.
    pub open spec fn turn_beside(self, held: Map<Seq<char>, Nvfp4Weight>, place: int) -> Turn {
        let (layer, part) = ((place / PARTS as int) as nat, dit::part_at(place % PARTS as int));
        let name = CudaDit::part_name(layer, part);
        let qkv = CudaDit::part_name(layer, Part::Qkv);
        let linear = self.linear_of(name);
        if !linear.int8() || held.dom().contains(name) || (part == Part::Gate && !held.dom().contains(qkv)) {
            Turn::Kept
        } else if part == Part::Gate && linear.adapter is Some {
            Turn::Refused(name + ": NVFP4 VSA gates do not take LoRAs"@)
        } else if linear.keeps_input() {
            Turn::Refused(name + ": the adapter has no quantized down projection"@)
        } else if !linear.layer->0.scaled {
            Turn::Refused(model::missing_tensor(name + ".weight_scale"@))
        } else {
            Turn::Converted(
                match linear.adapter {
                    Some(adapter) => Columns::Adapter(adapter.rank),
                    None => if part == Part::Gate {
                        Columns::Zeros(held[qkv].columns)
                    } else {
                        Columns::Inputs
                    },
                },
            )
        }
    }

    /// The layers that run in NVFP4 once the first `count` places had their turn.
    pub open spec fn switched(self, count: int) -> Map<Seq<char>, Nvfp4Weight>
        decreases count,
    {
        if count <= 0 {
            self.nvfp4@
        } else {
            let held = self.switched(count - 1);
            let name = place_name(count - 1);
            match self.turn_beside(held, count - 1) {
                Turn::Converted(columns) => {
                    let weight = self.tensors.find(name + ".weight"@)->0;
                    held.insert(name, Nvfp4Weight::of(weight.shape@[0], weight.shape@[1], columns))
                },
                _ => held,
            }
        }
    }

    /// How many layers change in the turns of the first `count` places.
    pub open spec fn changed(self, count: int) -> nat
        decreases count,
    {
        if count <= 0 {
            0
        } else {
            self.changed(count - 1) + (if self.turn_beside(self.switched(count - 1), count - 1) is Converted {
                1nat
            } else {
                0nat
            })
        }
    }

    /// Whether no turn of the first `count` places is refused.
    pub open spec fn goes_through(self, count: int) -> bool {
        forall|at: int| 0 <= at < count ==> !((#[trigger] self.turn_beside(self.switched(at), at)) is Refused)
    }

    /// Whether a layer can be requantized, where it is to be.
    pub fn is_convertible(&self, layer: usize, part: Part) -> (answer: bool)
        requires
            self.valid(),
        ensures
            answer == self.convertible(layer as nat, part),
    {
        let prefix = dit::prefix_of(layer);
        let mut name = prefix.clone();
        name.append(part.suffix());
        let mut qkv = prefix;
        qkv.append(".attn.qkv_proj");
        let mut weight_name = name.clone();
        weight_name.append(".weight");
        let mut scale_name = name.clone();
        scale_name.append(".weight_scale");
        let weight = match self.tensors.get(weight_name.as_str()) {
            Err(_) => {
                return true;
            },
            Ok(weight) => weight,
        };
        if weight.shape.len() < 2 {
            return false;
        }
        let is_gate = match part {
            Part::Gate => true,
            _ => false,
        };
        if weight.dtype != DType::I8 || self.nvfp4.contains(name.as_str()) || (is_gate && !self.nvfp4.contains(
            qkv.as_str(),
        )) {
            return true;
        }
        let columns = match self.adapters.get(name.as_str()) {
            Some(adapter) => {
                if is_gate || adapter.columns.is_none() {
                    return true;
                }
                Columns::Adapter(adapter.rank)
            },
            None => match self.nvfp4.get(qkv.as_str()) {
                Some(held) if is_gate => Columns::Zeros(held.columns),
                _ => Columns::Inputs,
            },
        };
        let scales = match self.tensors.get(scale_name.as_str()) {
            Err(_) => {
                return true;
            },
            Ok(scales) => scales,
        };
        let (outputs, features): (usize, usize) = (weight.shape[0], weight.shape[1]);
        let (weight_bytes, scale_bytes): (usize, usize) = (weight.buffer.bytes(), scales.buffer.bytes());
        let whole = match outputs.checked_mul(features) {
            Some(count) => count <= weight_bytes,
            None => false,
        };
        let scaled = match outputs.checked_mul(4) {
            Some(count) => count <= scale_bytes,
            None => false,
        };
        whole && scaled && fits(columns, features)
    }

    fn is_kept(&self, layer: usize, part: Part) -> (answer: bool)
        requires
            self.valid(),
            self.convertible(layer as nat, part),
        ensures
            answer == (self.turn(layer as nat, part) is Kept),
    {
        let prefix = dit::prefix_of(layer);
        let mut name = prefix.clone();
        name.append(part.suffix());
        let mut qkv = prefix;
        qkv.append(".attn.qkv_proj");
        let is_gate = match part {
            Part::Gate => true,
            _ => false,
        };
        let int8 = match self.tensors.layer(name.as_str()) {
            Some(layer) => layer.dtype == DType::I8,
            None => false,
        };
        !int8 || self.nvfp4.contains(name.as_str()) || (is_gate && !self.nvfp4.contains(qkv.as_str()))
    }

    /// Whether the layers from `place` on can be requantized, where they are to be, up to the first that is not kept.
    pub fn can_go_on(&self, place: usize) -> (answer: bool)
        requires
            self.valid(),
            self.config.layers * PARTS <= usize::MAX,
            place <= self.config.layers * PARTS,
        ensures
            answer == self.goes_on_from(place as int),
    {
        let total: usize = self.config.layers * PARTS;
        for at in place..total
            invariant
                self.valid(),
                total == self.config.layers * PARTS,
                place <= total,
                forall|before: int| place <= before < at ==> (#[trigger] self.turn_at(before)) is Kept,
                forall|before: int| place <= before < at ==> #[trigger] self.convertible_at(before),
        {
            let layer: usize = at / PARTS;
            let part = match at % PARTS {
                0 => Part::Qkv,
                1 => Part::Gate,
                2 => Part::Out,
                3 => Part::Fc1,
                _ => Part::Fc2,
            };
            assert(self.turn_at(at as int) == self.turn(layer as nat, part));
            if !self.is_convertible(layer, part) {
                assert(!self.convertible_at(at as int));
                return false;
            }
            assert(self.convertible_at(at as int));
            if !self.is_kept(layer, part) {
                assert forall|later: int|
                    place <= later < total && (forall|before: int|
                        place <= before < later ==> (#[trigger] self.turn_at(before)) is Kept) implies #[trigger] self.convertible_at(
                later) by {
                    if later > at {
                        assert(self.turn_at(at as int) is Kept);
                    }
                }
                return true;
            }
        }
        true
    }
}

fn fits(columns: Columns, features: usize) -> (answer: bool)
    ensures
        answer == (columns.fit(features as int) && (columns matches Columns::Adapter(rank) ==> features + rank
            <= usize::MAX)),
{
    match columns {
        Columns::Inputs => features % 64 == 0,
        Columns::Zeros(total) => features <= total && total % 64 == 0,
        Columns::Adapter(rank) => {
            if rank > usize::MAX - features || !arithmetic::can_round_up(features + rank, 256) {
                return false;
            }
            proof {
                arithmetic::round_up_is_least(features + rank, 256);
            }
            rank % 64 == 0
        },
    }
}

/// How far a switch to NVFP4 is, and how many layers it changed.
#[derive(Clone, Copy, Debug, PartialEq, Eq, Structural)]
pub struct Switch {
    pub place: usize,
    pub changed: usize,
}

impl Switch {
    /// Whether `model` is what a switch that started with `before` made of it so far.
    pub open spec fn follows(self, before: CudaDit, model: CudaDit) -> bool {
        &&& model.config == before.config
        &&& model.tensors == before.tensors
        &&& model.adapters == before.adapters
        &&& model.nvfp4@ == before.switched(self.place as int)
        &&& self.changed == before.changed(self.place as int)
        &&& before.goes_through(self.place as int)
    }

    pub fn new() -> (switch: Switch)
        ensures
            switch == (Switch { place: 0, changed: 0 }),
            forall|model: CudaDit| #[trigger] switch.follows(model, model),
    {
        Switch { place: 0, changed: 0 }
    }

    /// Takes in a converted layer, whose place is ahead of `next`.
    pub fn take(&mut self, model: &mut CudaDit, next: usize, conversion: Conversion)
        requires
            old(model).valid(),
            old(self).changed < usize::MAX,
        ensures
            *final(self) == (Switch { place: next, changed: (old(self).changed + 1) as usize }),
            final(model).valid(),
            final(model).config == old(model).config,
            final(model).attention_precision == old(model).attention_precision,
            final(model).tensors == old(model).tensors,
            final(model).adapters == old(model).adapters,
            final(model).text_kept == old(model).text_kept,
            final(model).nvfp4@ == old(model).nvfp4@.insert(conversion.name@, conversion.weight),
            if conversion.part == Part::Gate {
                final(model).histories@ == old(model).histories@
            } else {
                exists|history: Nvfp4Scale|
                    history.calls() == 0 && final(model).histories@ == #[trigger] old(model).histories@.insert(
                        conversion.name@,
                        history,
                    )
            },
    {
        model.converted(conversion);
        self.place = next;
        self.changed = self.changed + 1;
    }
}

proof fn a_turn_is_of_the_model(before: CudaDit, model: CudaDit, place: int)
    requires
        model.tensors == before.tensors,
        model.adapters == before.adapters,
    ensures
        model.turn_at(place) == before.turn_beside(model.nvfp4@, place),
{
}

proof fn kept_places_stay(before: CudaDit, model: CudaDit, first: int, last: int)
    requires
        model.tensors == before.tensors,
        model.adapters == before.adapters,
        0 <= first <= last,
        model.nvfp4@ == before.switched(first),
        forall|at: int| first <= at < last ==> (#[trigger] model.turn_at(at)) is Kept,
    ensures
        before.switched(last) == before.switched(first),
        before.changed(last) == before.changed(first),
        before.goes_through(first) ==> before.goes_through(last),
    decreases last - first,
{
    if first < last {
        kept_places_stay(before, model, first, last - 1);
        assert(model.turn_at(last - 1) is Kept);
        a_turn_is_of_the_model(before, model, last - 1);
    }
}

/// A switch that takes in the next layer to convert goes on.
pub proof fn a_switch_goes_on(
    before: CudaDit,
    model: CudaDit,
    after: CudaDit,
    switch: Switch,
    next: usize,
    columns: Columns,
    conversion: Conversion,
)
    requires
        switch.follows(before, model),
        switch.place < next,
        forall|at: int| switch.place <= at < next - 1 ==> (#[trigger] model.turn_at(at)) is Kept,
        model.turn_at(next - 1) == Turn::Converted(columns),
        model.is_conversion(
            conversion,
            ((next - 1) / PARTS as int) as nat,
            dit::part_at((next - 1) % PARTS as int),
            columns,
        ),
        after.config == model.config,
        after.tensors == model.tensors,
        after.adapters == model.adapters,
        after.nvfp4@ == model.nvfp4@.insert(conversion.name@, conversion.weight),
        switch.changed < usize::MAX,
    ensures
        (Switch { place: next, changed: (switch.changed + 1) as usize }).follows(before, after),
{
    kept_places_stay(before, model, switch.place as int, next - 1);
    a_turn_is_of_the_model(before, model, next - 1);
}

proof fn a_place_is_named_once(one: int, other: int)
    requires
        0 <= one,
        0 <= other,
        place_name(one) == place_name(other),
    ensures
        one == other,
{
    let (a, b) = ((one / PARTS as int) as nat, (other / PARTS as int) as nat);
    let (p, q) = (dit::part_at(one % PARTS as int), dit::part_at(other % PARTS as int));
    let (x, y) = (text::decimal(a), text::decimal(b));
    reveal_strlit("blocks.");
    reveal_strlit(".attn.qkv_proj");
    reveal_strlit(".attn.to_gate_compress");
    reveal_strlit(".attn.out_proj");
    reveal_strlit(".mlp.fc1");
    reveal_strlit(".mlp.fc2");
    text::decimal_is_digits(a);
    text::decimal_is_digits(b);
    let whole = place_name(one);
    let (n, m) = (x.len() as int, y.len() as int);
    assert(p.letters()[0] == '.' && q.letters()[0] == '.');
    assert(whole[7 + n] == '.');
    assert(whole[7 + m] == '.') by {
        assert(place_name(other)[7 + m] == q.letters()[0]);
    }
    if n < m {
        assert(place_name(other)[7 + n] == y[n]);
    }
    if m < n {
        assert(whole[7 + m] == x[m]);
    }
    assert(x =~= y) by {
        assert(whole.subrange(7, 7 + n) =~= x);
        assert(place_name(other).subrange(7, 7 + m) =~= y);
    }
    text::decimals_tell_apart(a, b);
    assert(whole.skip(7 + n) =~= p.letters());
    assert(place_name(other).skip(7 + m) =~= q.letters());
    assert(p == q) by {
        if p != q {
            assert(p.letters()[6] == q.letters()[6]);
            assert(p.letters().last() == q.letters().last());
        }
    }
}

proof fn a_switch_keeps_layers(dit: CudaDit, first: int, last: int, name: Seq<char>)
    requires
        0 <= first <= last,
    ensures
        dit.switched(first).dom().contains(name) ==> dit.switched(last).dom().contains(name),
        dit.switched(last).dom().contains(name) ==> dit.switched(first).dom().contains(name) || exists|at: int|
            first <= at < last && name == #[trigger] place_name(at) && dit.turn_beside(dit.switched(at), at) is Converted,
    decreases last - first,
{
    if first < last {
        a_switch_keeps_layers(dit, first, last - 1, name);
        if dit.switched(last).dom().contains(name) && !dit.switched(last - 1).dom().contains(name) {
            assert(name == place_name(last - 1));
        }
    }
}

proof fn a_gate_had_its_turn(before: CudaDit, count: int, place: int)
    requires
        0 <= place < count,
        place % PARTS as int == 1,
    ensures
        before.switched(count).dom().contains(place_name(place - 1)) == before.switched(place).dom().contains(
            place_name(place - 1),
        ),
        place_name(place - 1) == CudaDit::part_name((place / PARTS as int) as nat, Part::Qkv),
{
    let name = place_name(place - 1);
    a_switch_keeps_layers(before, place, count, name);
    if before.switched(count).dom().contains(name) && !before.switched(place).dom().contains(name) {
        let at = choose|at: int|
            place <= at < count && name == #[trigger] place_name(at) && before.turn_beside(before.switched(at), at) is Converted;
        a_place_is_named_once(at, place - 1);
    }
}

proof fn every_place_is_settled(before: CudaDit, count: int, place: int)
    requires
        0 <= place < count,
        before.goes_through(count),
    ensures
        before.turn_beside(before.switched(count), place) is Kept,
        before.switched(count).dom().contains(place_name(place)) == (before.nvfp4@.dom().contains(place_name(place)) || (
        before.linear_of(place_name(place)).int8() && (place % PARTS as int == 1 ==> before.switched(count).dom().contains(
            place_name(place - 1),
        )))),
{
    let name = place_name(place);
    let turn = before.turn_beside(before.switched(place), place);
    assert(!(turn is Refused));
    a_switch_keeps_layers(before, place, count, name);
    a_switch_keeps_layers(before, place + 1, count, name);
    a_switch_keeps_layers(before, 0, count, name);
    a_switch_keeps_layers(before, 0, place, name);
    if place % PARTS as int == 1 {
        a_gate_had_its_turn(before, count, place);
    }
    if before.switched(count).dom().contains(name) && !before.nvfp4@.dom().contains(name) {
        let at = choose|at: int|
            0 <= at < count && name == #[trigger] place_name(at) && before.turn_beside(before.switched(at), at) is Converted;
        a_place_is_named_once(at, place);
    }
}

/// A switch that has nothing left to convert is whole: a layer runs in NVFP4 if and only if it did before, or is INT8 and,
/// for a gate, the qkv projection of its block runs in NVFP4 too, and the switch counted every layer that changed.
pub proof fn a_switch_is_whole(before: CudaDit, model: CudaDit, switch: Switch, place: int)
    requires
        switch.follows(before, model),
        switch.place <= before.config.layers * PARTS,
        forall|at: int| switch.place <= at < model.config.layers * PARTS ==> (#[trigger] model.turn_at(at)) is Kept,
        0 <= place < before.config.layers * PARTS,
    ensures
        model.nvfp4@ == before.switched(before.config.layers * PARTS),
        switch.changed == before.changed(before.config.layers * PARTS),
        model.nvfp4@.dom().contains(place_name(place)) == (before.nvfp4@.dom().contains(place_name(place)) || (
        before.linear_of(place_name(place)).int8() && (place % PARTS as int == 1 ==> model.nvfp4@.dom().contains(
            place_name(place - 1),
        )))),
{
    let total = before.config.layers * PARTS;
    kept_places_stay(before, model, switch.place as int, total);
    every_place_is_settled(before, total, place);
}

proof fn changes_are_counted(dit: CudaDit, count: int)
    requires
        dit.nvfp4@.dom().finite(),
    ensures
        dit.switched(count).dom().finite(),
        dit.switched(count).dom().len() == dit.nvfp4@.dom().len() + dit.changed(count),
    decreases count,
{
    if count > 0 {
        changes_are_counted(dit, count - 1);
    }
}

/// A switch changes as many layers as run in NVFP4 behind it and did not before it.
pub proof fn a_switch_counts_its_layers(before: CudaDit, model: CudaDit, switch: Switch)
    requires
        before.valid(),
        model.valid(),
        switch.follows(before, model),
    ensures
        model.nvfp4.entries().len() == before.nvfp4.entries().len() + switch.changed,
{
    before.nvfp4.names_match_entries();
    model.nvfp4.names_match_entries();
    changes_are_counted(before, switch.place as int);
}

/// A second switch behind a whole one changes no layer.
pub proof fn a_second_switch_changes_nothing(before: CudaDit, model: CudaDit, switch: Switch)
    requires
        switch.follows(before, model),
        switch.place <= before.config.layers * PARTS,
        forall|at: int| switch.place <= at < model.config.layers * PARTS ==> (#[trigger] model.turn_at(at)) is Kept,
    ensures
        forall|at: int| 0 <= at < model.config.layers * PARTS ==> (#[trigger] model.turn_at(at)) is Kept,
        model.switched(model.config.layers * PARTS) == model.nvfp4@,
        model.changed(model.config.layers * PARTS) == 0,
{
    let total = before.config.layers * PARTS;
    kept_places_stay(before, model, switch.place as int, total);
    assert forall|at: int| 0 <= at < total implies (#[trigger] model.turn_at(at)) is Kept by {
        every_place_is_settled(before, total, at);
        a_turn_is_of_the_model(before, model, at);
    }
    kept_places_stay(model, model, 0, total);
}

} // verus!
