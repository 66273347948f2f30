//! The loot simulation: replaying a seeded generator through the fixed
//! sequence of weighted draws that fills the buried-treasure chest, and the
//! split-and-shuffle pass that distributes the stacks over the container.
//!
//! Every draw happens in a fixed order; the spec functions below mirror
//! that order exactly, so the contracts pin each generator state and each
//! produced stack.
use crate::item::Item;
use crate::random::chunkrand::{int_in_range, ChunkRand};
use crate::random::jrand::{bool_of_bits, bounded_of, next48};
use vstd::prelude::*;

verus! {

/// A stack of one item kind with a count.
#[derive(Debug, Copy, Clone, PartialEq, Eq, Structural)]
pub struct ItemStack {
    pub item: Item,
    pub count: u8,
}

/// A stack value in spec form.
pub open spec fn stack_of(item: Item, count: int) -> ItemStack {
    ItemStack { item, count: count as u8 }
}

/// The smaller of a wanted split size and what the stack holds.
pub open spec fn split_take(count: int, have: int) -> int {
    if count < have {
        count
    } else {
        have
    }
}

impl ItemStack {
    /// The stack's count.
    pub fn get_count(&self) -> (r: u8)
        ensures
            r == self.count,
    {
        self.count
    }

    /// Split off up to `count` items into a new stack, keeping the rest.
    pub fn split(&mut self, count: u8) -> (r: Self)
        ensures
            final(self).item == old(self).item,
            final(self).count == old(self).count - split_take(count as int, old(self).count as int),
            r == (ItemStack {
                item: old(self).item,
                count: split_take(count as int, old(self).count as int) as u8,
            }),
    {
        let split_count = if count < self.count {
            count
        } else {
            self.count
        };
        let item_stack = Self { item: self.item, count: split_count };
        self.count = self.count - split_count;
        item_stack
    }

    /// Whether the stack stands for an empty slot: the empty item, or a
    /// count of zero.
    pub fn is_empty(&self) -> (r: bool)
        ensures
            r == (self.item == Item::Empty || self.count == 0),
    {
        self.item.equals(&Item::Empty) || self.count == 0
    }
}

/// Draw a count uniform in `[min, max]`, drawing nothing when the range is
/// empty.
fn get_count(rand: &mut ChunkRand, min: i32, max: i32) -> (r: i32)
    requires
        min < max ==> max - min < 0x7FFF_FFFF,
    ensures
        final(rand)@ == int_in_range(old(rand)@, min as int, max as int).0,
        r as int == int_in_range(old(rand)@, min as int, max as int).1,
{
    if min >= max {
        min
    } else {
        let ghost s0 = rand@;
        let d = rand.get_next_int_bound(max - min + 1);
        proof {
            crate::random::jrand::lemma_bounded_of_range(s0, max as int - min as int + 1);
        }
        d + min
    }
}

/// A drawn range value lies inside the range.
pub proof fn lemma_int_in_range_bounds(s: int, min: int, max: int)
    requires
        min < max ==> max - min < 0x7FFF_FFFF,
    ensures
        min <= int_in_range(s, min, max).1 <= if min >= max {
            min
        } else {
            max
        },
{
    if min < max {
        crate::random::jrand::lemma_bounded_of_range(s, max - min + 1);
    }
}

/// One roll of the first pool: a weight in `[0, 35)` picks iron, gold or
/// explosive, each with its own count range.
pub open spec fn first_pool_item(s: int) -> (int, ItemStack) {
    let w = bounded_of(s, 35);
    if w.1 < 20 {
        let c = int_in_range(w.0, 1, 4);
        (c.0, stack_of(Item::IronIngot, c.1))
    } else if w.1 < 30 {
        let c = int_in_range(w.0, 1, 4);
        (c.0, stack_of(Item::GoldIngot, c.1))
    } else {
        let c = int_in_range(w.0, 1, 2);
        (c.0, stack_of(Item::TNT, c.1))
    }
}

/// `rolls` rolls of the first pool, in draw order.
pub open spec fn first_pool(s: int, rolls: nat) -> (int, Seq<ItemStack>)
    decreases rolls,
{
    if rolls == 0 {
        (s, Seq::empty())
    } else {
        let d = first_pool_item(s);
        let rest = first_pool(d.0, (rolls - 1) as nat);
        (rest.0, seq![d.1] + rest.1)
    }
}

/// One roll of the second pool: a weight in `[0, 15)` picks emeralds,
/// diamonds or prismarine.
pub open spec fn second_pool_item(s: int) -> (int, ItemStack) {
    let w = bounded_of(s, 15);
    if w.1 < 5 {
        let c = int_in_range(w.0, 4, 8);
        (c.0, stack_of(Item::Emerald, c.1))
    } else if w.1 < 10 {
        let c = int_in_range(w.0, 1, 2);
        (c.0, stack_of(Item::Diamond, c.1))
    } else {
        let c = int_in_range(w.0, 1, 5);
        (c.0, stack_of(Item::PrismarineCrystals, c.1))
    }
}

/// `rolls` rolls of the second pool, in draw order.
pub open spec fn second_pool(s: int, rolls: nat) -> (int, Seq<ItemStack>)
    decreases rolls,
{
    if rolls == 0 {
        (s, Seq::empty())
    } else {
        let d = second_pool_item(s);
        let rest = second_pool(d.0, (rolls - 1) as nat);
        (rest.0, seq![d.1] + rest.1)
    }
}

/// The optional equipment roll: one boolean, and on success one binary
/// weight choosing the chestplate or the sword.
pub open spec fn equipment_roll(s: int) -> (int, Seq<ItemStack>) {
    let rolled = bool_of_bits(s);
    let s1 = next48(s);
    if rolled {
        let w = bounded_of(s1, 2);
        if w.1 < 1 {
            (w.0, seq![stack_of(Item::LeatherChestplate, 1)])
        } else {
            (w.0, seq![stack_of(Item::IronSword, 1)])
        }
    } else {
        (s1, Seq::empty())
    }
}

/// One food roll: a binary weight choosing cod or salmon, and a count in
/// `[2, 4]`.
pub open spec fn food_roll(s: int) -> (int, ItemStack) {
    let w = bounded_of(s, 2);
    let c = int_in_range(w.0, 2, 4);
    if w.1 < 1 {
        (c.0, stack_of(Item::CookedCod, c.1))
    } else {
        (c.0, stack_of(Item::CookedSalmon, c.1))
    }
}

/// The whole raw loot list drawn from state `s`: the fixed key item, the
/// two weighted pools, the optional equipment roll, and two food rolls,
/// in exactly this order.
#[verifier::opaque]
pub open spec fn raw_loot(s: int) -> (int, Seq<ItemStack>) {
    let r1 = int_in_range(s, 5, 8);
    let p1 = first_pool(r1.0, r1.1 as nat);
    let r2 = int_in_range(p1.0, 1, 3);
    let p2 = second_pool(r2.0, r2.1 as nat);
    let p3 = equipment_roll(p2.0);
    let f1 = food_roll(p3.0);
    let f2 = food_roll(f1.0);
    (f2.0, seq![stack_of(Item::HeartOfTheSea, 1)] + p1.1 + p2.1 + p3.1 + seq![f1.1, f2.1])
}

/// A pool of `rolls` rolls yields exactly `rolls` stacks.
pub proof fn lemma_first_pool_len(s: int, rolls: nat)
    ensures
        first_pool(s, rolls).1.len() == rolls,
    decreases rolls,
{
    if rolls > 0 {
        lemma_first_pool_len(first_pool_item(s).0, (rolls - 1) as nat);
    }
}

/// A pool of `rolls` rolls yields exactly `rolls` stacks.
pub proof fn lemma_second_pool_len(s: int, rolls: nat)
    ensures
        second_pool(s, rolls).1.len() == rolls,
    decreases rolls,
{
    if rolls > 0 {
        lemma_second_pool_len(second_pool_item(s).0, (rolls - 1) as nat);
    }
}

/// The stacks of a list that can still be split: more than one item.
pub open spec fn splittable_of(s: Seq<ItemStack>) -> Seq<ItemStack>
    decreases s.len(),
{
    if s.len() == 0 {
        Seq::empty()
    } else {
        let rest = splittable_of(s.drop_last());
        if s.last().count > 1 {
            rest.push(s.last())
        } else {
            rest
        }
    }
}

/// The stacks of a list that count as singletons: one item or none.
pub open spec fn singles_of(s: Seq<ItemStack>) -> Seq<ItemStack>
    decreases s.len(),
{
    if s.len() == 0 {
        Seq::empty()
    } else {
        let rest = singles_of(s.drop_last());
        if s.last().count > 1 {
            rest
        } else {
            rest.push(s.last())
        }
    }
}

/// Where a freshly split half goes: back to the splittable group on a coin
/// flip while it still holds more than one item, to the singles otherwise.
pub open spec fn classify(s: int, st: ItemStack, list: Seq<ItemStack>, items: Seq<ItemStack>) -> (
    int,
    Seq<ItemStack>,
    Seq<ItemStack>,
) {
    if st.count > 1 {
        if bool_of_bits(s) {
            (next48(s), list.push(st), items)
        } else {
            (next48(s), list, items.push(st))
        }
    } else {
        (s, list, items.push(st))
    }
}

/// The randomized splitting rounds: while container capacity remains and
/// the splittable group is non-empty, remove a drawn entry, split off a
/// drawn sub-count of its first half, and re-classify both halves.
pub open spec fn split_rounds(s: int, list: Seq<ItemStack>, items: Seq<ItemStack>) -> (
    int,
    Seq<ItemStack>,
    Seq<ItemStack>,
)
    decreases 27 - items.len() - list.len(),
    via split_rounds_decreases
{
    if 27 - items.len() - list.len() <= 0 || list.len() == 0 {
        (s, list, items)
    } else {
        let idx = int_in_range(s, 0, list.len() - 1);
        let chosen = list[idx.1];
        let list1 = list.remove(idx.1);
        let half = chosen.count as int / 2;
        let c = int_in_range(idx.0, 1, half);
        let take = split_take(c.1, chosen.count as int);
        let rem = ItemStack { item: chosen.item, count: (chosen.count - take) as u8 };
        let part = ItemStack { item: chosen.item, count: take as u8 };
        let after2 = classify(c.0, rem, list1, items);
        let after1 = classify(after2.0, part, after2.1, after2.2);
        split_rounds(after1.0, after1.1, after1.2)
    }
}

/// Each splitting round removes one splittable stack and hands back two
/// halves, so the joint size of the two groups grows by exactly one.
#[via_fn]
proof fn split_rounds_decreases(s: int, list: Seq<ItemStack>, items: Seq<ItemStack>) {
    if !(27 - items.len() - list.len() <= 0 || list.len() == 0) {
        lemma_int_in_range_bounds(s, 0, list.len() - 1);
    }
}

/// Walk the shuffled stacks and the slot permutation in lockstep from
/// their tails, writing each non-empty stack into its slot of `acc`.
pub open spec fn place_stacks(
    items: Seq<ItemStack>,
    container: Seq<usize>,
    acc: Seq<ItemStack>,
    j: nat,
) -> Seq<ItemStack>
    decreases items.len() - j,
{
    if j >= items.len() {
        acc
    } else {
        let slot = container[container.len() - 1 - j] as int;
        let acc2 = if items[j as int].item == Item::Empty {
            acc
        } else {
            acc.update(slot, items[j as int])
        };
        place_stacks(items, container, acc2, j + 1)
    }
}

/// A container of 27 empty slots.
pub open spec fn empty_inventory_seq() -> Seq<ItemStack> {
    Seq::new(27, |i: int| ItemStack { item: Item::Empty, count: 0 })
}

/// The container slots in their unshuffled order.
pub open spec fn identity_container_seq() -> Seq<usize> {
    Seq::new(27, |i: int| i as usize)
}

/// The distribution of a raw loot list over a shuffled slot permutation:
/// partition, randomized splitting, a concatenating shuffle, and the final
/// tail-to-tail placement.
#[verifier::opaque]
pub open spec fn shuffled_items_of(s: int, loot: Seq<ItemStack>, container: Seq<usize>) -> (
    int,
    Seq<ItemStack>,
) {
    let sr = split_rounds(s, splittable_of(loot), singles_of(loot));
    let combined = sr.2 + sr.1;
    let sh = crate::random::jrand::shuffled(sr.0, combined);
    (sh.0, place_stacks(sh.1, container, empty_inventory_seq(), 0))
}

/// The stages of the container distribution assemble into
/// `shuffled_items_of`.
proof fn lemma_shuffled_items_assembly(
    s: int,
    loot: Seq<ItemStack>,
    container: Seq<usize>,
    rand_out: int,
    placed: Seq<ItemStack>,
)
    requires
        ({
            let sr = split_rounds(s, splittable_of(loot), singles_of(loot));
            let sh = crate::random::jrand::shuffled(sr.0, sr.2 + sr.1);
            rand_out == sh.0 && placed == place_stacks(sh.1, container, empty_inventory_seq(), 0)
        }),
    ensures
        rand_out == shuffled_items_of(s, loot, container).0,
        placed == shuffled_items_of(s, loot, container).1,
{
    reveal(shuffled_items_of);
}

/// The loot a seeded generator produces: the raw draw list, and when an
/// indexed container is asked for, the shuffled slot permutation and the
/// distribution over it.
#[verifier::opaque]
pub open spec fn generated_loot(s: int, indexed: bool) -> Seq<ItemStack> {
    let r = raw_loot(s);
    if indexed {
        let c = crate::random::jrand::shuffled(r.0, identity_container_seq());
        shuffled_items_of(c.0, r.1, c.1).1
    } else {
        r.1
    }
}

/// The raw draw list and the container stage assemble into
/// `generated_loot`.
proof fn lemma_generated_loot_assembly(s: int, indexed: bool, out: Seq<ItemStack>)
    requires
        ({
            let r = raw_loot(s);
            let c = crate::random::jrand::shuffled(r.0, identity_container_seq());
            if indexed {
                out == shuffled_items_of(c.0, r.1, c.1).1
            } else {
                out == r.1
            }
        }),
    ensures
        out == generated_loot(s, indexed),
{
    reveal(generated_loot);
}

/// The component draws assemble into `raw_loot`.
proof fn lemma_raw_loot_assembly(s0: int, sp: int, loot: Seq<ItemStack>)
    requires
        ({
            let r1 = int_in_range(s0, 5, 8);
            let p1 = first_pool(r1.0, r1.1 as nat);
            let r2 = int_in_range(p1.0, 1, 3);
            let p2 = second_pool(r2.0, r2.1 as nat);
            let p3 = equipment_roll(p2.0);
            let f1 = food_roll(p3.0);
            let f2 = food_roll(f1.0);
            loot == seq![stack_of(Item::HeartOfTheSea, 1)] + p1.1 + p2.1 + p3.1 + seq![f1.1, f2.1]
                && sp == f2.0
        }),
    ensures
        loot == raw_loot(s0).1,
        sp == raw_loot(s0).0,
{
    reveal(raw_loot);
}

/// The target inventory: the observed ground truth the search must
/// reproduce, slot for slot.
#[verifier::opaque]
pub open spec fn target_items_seq() -> Seq<ItemStack> {
    seq![
        stack_of(Item::LeatherChestplate, 1),
        stack_of(Item::IronIngot, 2),
        stack_of(Item::IronIngot, 1),
        stack_of(Item::GoldIngot, 1),
        stack_of(Item::GoldIngot, 1),
        stack_of(Item::CookedCod, 1),
        stack_of(Item::Empty, 0),
        stack_of(Item::IronIngot, 1),
        stack_of(Item::IronIngot, 1),
        stack_of(Item::Diamond, 1),
        stack_of(Item::GoldIngot, 1),
        stack_of(Item::CookedCod, 2),
        stack_of(Item::GoldIngot, 1),
        stack_of(Item::Diamond, 1),
        stack_of(Item::HeartOfTheSea, 1),
        stack_of(Item::CookedSalmon, 1),
        stack_of(Item::IronIngot, 1),
        stack_of(Item::Emerald, 6),
        stack_of(Item::IronIngot, 1),
        stack_of(Item::GoldIngot, 1),
        stack_of(Item::CookedSalmon, 2),
        stack_of(Item::TNT, 1),
        stack_of(Item::CookedSalmon, 1),
        stack_of(Item::GoldIngot, 1),
        stack_of(Item::IronIngot, 1),
        stack_of(Item::GoldIngot, 1),
        stack_of(Item::Emerald, 1),
    ]
}

/// How many of `item` a stack list holds in total.
pub open spec fn item_total(s: Seq<ItemStack>, item: Item) -> int
    decreases s.len(),
{
    if s.len() == 0 {
        0
    } else {
        item_total(s.drop_last(), item) + if s.last().item == item {
            s.last().count as int
        } else {
            0
        }
    }
}

/// A list of `n` stacks holds at most `255 * n` of any one item.
proof fn lemma_item_total_bound(s: Seq<ItemStack>, item: Item)
    ensures
        0 <= item_total(s, item) <= 255 * s.len(),
    decreases s.len(),
{
    if s.len() > 0 {
        lemma_item_total_bound(s.drop_last(), item);
    }
}

/// What one stack contributes to the total of one item.
pub open spec fn stack_contrib(st: ItemStack, item: Item) -> int {
    if st.item == item {
        st.count as int
    } else {
        0
    }
}

/// Item totals add over concatenation.
proof fn lemma_item_total_concat(a: Seq<ItemStack>, b: Seq<ItemStack>, item: Item)
    ensures
        item_total(a + b, item) == item_total(a, item) + item_total(b, item),
    decreases b.len(),
{
    if b.len() == 0 {
        assert(a + b =~= a);
    } else {
        assert((a + b).drop_last() =~= a + b.drop_last());
        assert((a + b).last() == b.last());
        lemma_item_total_concat(a, b.drop_last(), item);
    }
}

/// Appending one stack adds its contribution.
proof fn lemma_item_total_push(s: Seq<ItemStack>, st: ItemStack, item: Item)
    ensures
        item_total(s.push(st), item) == item_total(s, item) + stack_contrib(st, item),
{
    assert(s.push(st).drop_last() =~= s);
    assert(s.push(st).last() == st);
}

/// Overwriting one slot trades its old contribution for the new one.
proof fn lemma_item_total_update(s: Seq<ItemStack>, i: int, v: ItemStack, item: Item)
    requires
        0 <= i < s.len(),
    ensures
        item_total(s.update(i, v), item) == item_total(s, item) - stack_contrib(s[i], item)
            + stack_contrib(v, item),
    decreases s.len(),
{
    let s2 = s.update(i, v);
    if i == s.len() - 1 {
        assert(s2.drop_last() =~= s.drop_last());
        assert(s2.last() == v);
    } else {
        assert(s2.drop_last() =~= s.drop_last().update(i, v));
        assert(s2.last() == s.last());
        lemma_item_total_update(s.drop_last(), i, v, item);
    }
}

/// Removing one stack removes its contribution.
proof fn lemma_item_total_remove(s: Seq<ItemStack>, i: int, item: Item)
    requires
        0 <= i < s.len(),
    ensures
        item_total(s.remove(i), item) == item_total(s, item) - stack_contrib(s[i], item),
{
    let front = s.subrange(0, i);
    let back = s.subrange(i + 1, s.len() as int);
    assert(s.remove(i) =~= front + back);
    assert(s =~= front + (seq![s[i]] + back));
    lemma_item_total_concat(front, back, item);
    lemma_item_total_concat(front, seq![s[i]] + back, item);
    lemma_item_total_concat(seq![s[i]], back, item);
    assert(item_total(seq![s[i]], item) == stack_contrib(s[i], item)) by {
        let single = seq![s[i]];
        assert(single.len() == 1);
        assert(single.drop_last() =~= Seq::<ItemStack>::empty());
        assert(single.last() == s[i]);
        assert(item_total(single.drop_last(), item) == 0);
    }
}

/// Shuffling keeps every item total: each round is a swap, which trades
/// equal contributions.
proof fn lemma_shuffle_keeps_item_total(s: int, v: Seq<ItemStack>, i: nat, item: Item)
    requires
        i <= v.len() < 0x8000_0000,
    ensures
        item_total(crate::random::jrand::shuffle_rounds(s, v, i).1, item) == item_total(v, item),
    decreases i,
{
    if i >= 2 {
        let d = bounded_of(s, i as int);
        crate::random::jrand::lemma_bounded_of_range(s, i as int);
        let j = d.1;
        let v1 = v.update(i - 1, v[j]);
        let v2 = v1.update(j, v[i - 1]);
        lemma_item_total_update(v, i - 1, v[j], item);
        assert(v1[j] == v[j]);
        lemma_item_total_update(v1, j, v[i - 1], item);
        lemma_shuffle_keeps_item_total(d.0, v2, (i - 1) as nat, item);
    }
}

/// Re-classifying a stack adds its contribution to the joint total of the
/// two groups.
proof fn lemma_classify_keeps_item_total(
    s: int,
    st: ItemStack,
    list: Seq<ItemStack>,
    items: Seq<ItemStack>,
    item: Item,
)
    ensures
        ({
            let c = classify(s, st, list, items);
            item_total(c.1, item) + item_total(c.2, item) == item_total(list, item) + item_total(
                items,
                item,
            ) + stack_contrib(st, item)
        }),
{
    lemma_item_total_push(list, st, item);
    lemma_item_total_push(items, st, item);
}

/// The splitting rounds keep the joint item total of the two groups: each
/// round removes one stack and re-adds its two halves.
proof fn lemma_split_rounds_keep_item_total(
    s: int,
    list: Seq<ItemStack>,
    items: Seq<ItemStack>,
    item: Item,
)
    ensures
        ({
            let sr = split_rounds(s, list, items);
            item_total(sr.1, item) + item_total(sr.2, item) == item_total(list, item) + item_total(
                items,
                item,
            )
        }),
    decreases 27 - items.len() - list.len(),
{
    if !(27 - items.len() - list.len() <= 0 || list.len() == 0) {
        let idx = int_in_range(s, 0, list.len() - 1);
        lemma_int_in_range_bounds(s, 0, list.len() - 1);
        let chosen = list[idx.1];
        let list1 = list.remove(idx.1);
        lemma_item_total_remove(list, idx.1, item);
        let half = chosen.count as int / 2;
        let c = int_in_range(idx.0, 1, half);
        let take = split_take(c.1, chosen.count as int);
        let rem = ItemStack { item: chosen.item, count: (chosen.count - take) as u8 };
        let part = ItemStack { item: chosen.item, count: take as u8 };
        lemma_int_in_range_bounds(idx.0, 1, half);
        assert(stack_contrib(rem, item) + stack_contrib(part, item) == stack_contrib(
            chosen,
            item,
        ));
        let after2 = classify(c.0, rem, list1, items);
        lemma_classify_keeps_item_total(c.0, rem, list1, items, item);
        let after1 = classify(after2.0, part, after2.1, after2.2);
        lemma_classify_keeps_item_total(after2.0, part, after2.1, after2.2, item);
        lemma_split_rounds_keep_item_total(after1.0, after1.1, after1.2, item);
    }
}

/// The two partition groups share out the whole list's item total.
proof fn lemma_partition_keeps_item_total(s: Seq<ItemStack>, item: Item)
    ensures
        item_total(splittable_of(s), item) + item_total(singles_of(s), item) == item_total(
            s,
            item,
        ),
    decreases s.len(),
{
    if s.len() > 0 {
        lemma_partition_keeps_item_total(s.drop_last(), item);
        lemma_item_total_push(splittable_of(s.drop_last()), s.last(), item);
        lemma_item_total_push(singles_of(s.drop_last()), s.last(), item);
    }
}

/// One first-pool roll yields iron, gold or explosive, at least one item.
proof fn lemma_first_pool_item_facts(s: int)
    ensures
        ({
            let d = first_pool_item(s);
            (d.1.item == Item::IronIngot || d.1.item == Item::GoldIngot || d.1.item == Item::TNT)
                && 1 <= d.1.count
        }),
{
    let w = bounded_of(s, 35);
    lemma_int_in_range_bounds(w.0, 1, 4);
    lemma_int_in_range_bounds(w.0, 1, 2);
}

/// One second-pool roll yields emeralds, diamonds or prismarine, at least
/// one item.
proof fn lemma_second_pool_item_facts(s: int)
    ensures
        ({
            let d = second_pool_item(s);
            (d.1.item == Item::Emerald || d.1.item == Item::Diamond || d.1.item
                == Item::PrismarineCrystals) && 1 <= d.1.count
        }),
{
    let w = bounded_of(s, 15);
    lemma_int_in_range_bounds(w.0, 4, 8);
    lemma_int_in_range_bounds(w.0, 1, 2);
    lemma_int_in_range_bounds(w.0, 1, 5);
}

/// One food roll yields cod or salmon, at least two items.
proof fn lemma_food_roll_facts(s: int)
    ensures
        ({
            let d = food_roll(s);
            (d.1.item == Item::CookedCod || d.1.item == Item::CookedSalmon) && 2 <= d.1.count
        }),
{
    let w = bounded_of(s, 2);
    lemma_int_in_range_bounds(w.0, 2, 4);
}

/// The first pool holds none of any item outside its three categories.
proof fn lemma_first_pool_zero(s: int, rolls: nat, item: Item)
    requires
        item != Item::IronIngot,
        item != Item::GoldIngot,
        item != Item::TNT,
    ensures
        item_total(first_pool(s, rolls).1, item) == 0,
    decreases rolls,
{
    if rolls > 0 {
        let d = first_pool_item(s);
        lemma_first_pool_item_facts(s);
        lemma_first_pool_zero(d.0, (rolls - 1) as nat, item);
        lemma_item_total_concat(seq![d.1], first_pool(d.0, (rolls - 1) as nat).1, item);
        lemma_item_total_push(Seq::empty(), d.1, item);
        assert(seq![d.1] =~= Seq::<ItemStack>::empty().push(d.1));
    }
}

/// The second pool holds none of any item outside its three categories.
proof fn lemma_second_pool_zero(s: int, rolls: nat, item: Item)
    requires
        item != Item::Emerald,
        item != Item::Diamond,
        item != Item::PrismarineCrystals,
    ensures
        item_total(second_pool(s, rolls).1, item) == 0,
    decreases rolls,
{
    if rolls > 0 {
        let d = second_pool_item(s);
        lemma_second_pool_item_facts(s);
        lemma_second_pool_zero(d.0, (rolls - 1) as nat, item);
        lemma_item_total_concat(seq![d.1], second_pool(d.0, (rolls - 1) as nat).1, item);
        lemma_item_total_push(Seq::empty(), d.1, item);
        assert(seq![d.1] =~= Seq::<ItemStack>::empty().push(d.1));
    }
}

/// The equipment roll holds nothing but the chestplate or the sword.
proof fn lemma_equipment_zero(s: int, item: Item)
    requires
        item != Item::LeatherChestplate,
        item != Item::IronSword,
    ensures
        item_total(equipment_roll(s).1, item) == 0,
{
    let p3 = equipment_roll(s);
    if bool_of_bits(s) {
        let w = bounded_of(next48(s), 2);
        if w.1 < 1 {
            lemma_item_total_single(stack_of(Item::LeatherChestplate, 1), item);
        } else {
            lemma_item_total_single(stack_of(Item::IronSword, 1), item);
        }
    }
}

/// A singleton list holds exactly its one stack's contribution.
proof fn lemma_item_total_single(st: ItemStack, item: Item)
    ensures
        item_total(seq![st], item) == stack_contrib(st, item),
{
    lemma_item_total_push(Seq::empty(), st, item);
    assert(seq![st] =~= Seq::<ItemStack>::empty().push(st));
}

/// A pair holds exactly its two stacks' contributions.
proof fn lemma_item_total_pair(a: ItemStack, b: ItemStack, item: Item)
    ensures
        item_total(seq![a, b], item) == stack_contrib(a, item) + stack_contrib(b, item),
{
    lemma_item_total_single(a, item);
    lemma_item_total_concat(seq![a], seq![b], item);
    lemma_item_total_single(b, item);
    assert(seq![a, b] =~= seq![a] + seq![b]);
}

/// Away from the key item, the raw list's totals decompose into the four
/// drawing phases.
proof fn lemma_raw_loot_totals(s0: int, item: Item)
    requires
        item != Item::HeartOfTheSea,
    ensures
        ({
            let r1 = int_in_range(s0, 5, 8);
            let p1 = first_pool(r1.0, r1.1 as nat);
            let r2 = int_in_range(p1.0, 1, 3);
            let p2 = second_pool(r2.0, r2.1 as nat);
            let p3 = equipment_roll(p2.0);
            let f1 = food_roll(p3.0);
            let f2 = food_roll(f1.0);
            item_total(raw_loot(s0).1, item) == item_total(p1.1, item) + item_total(p2.1, item)
                + item_total(p3.1, item) + stack_contrib(f1.1, item) + stack_contrib(f2.1, item)
        }),
{
    reveal(raw_loot);
    let r1 = int_in_range(s0, 5, 8);
    let p1 = first_pool(r1.0, r1.1 as nat);
    let r2 = int_in_range(p1.0, 1, 3);
    let p2 = second_pool(r2.0, r2.1 as nat);
    let p3 = equipment_roll(p2.0);
    let f1 = food_roll(p3.0);
    let f2 = food_roll(f1.0);
    let heart = seq![stack_of(Item::HeartOfTheSea, 1)];
    lemma_item_total_single(stack_of(Item::HeartOfTheSea, 1), item);
    lemma_item_total_concat(heart, p1.1, item);
    lemma_item_total_concat(heart + p1.1, p2.1, item);
    lemma_item_total_concat(heart + p1.1 + p2.1, p3.1, item);
    lemma_item_total_concat(heart + p1.1 + p2.1 + p3.1, seq![f1.1, f2.1], item);
    lemma_item_total_pair(f1.1, f2.1, item);
}

/// The raw list never exceeds the container's slot count.
proof fn lemma_raw_loot_len(s0: int)
    ensures
        raw_loot(s0).1.len() <= 15,
{
    reveal(raw_loot);
    let r1 = int_in_range(s0, 5, 8);
    let p1 = first_pool(r1.0, r1.1 as nat);
    let r2 = int_in_range(p1.0, 1, 3);
    lemma_int_in_range_bounds(s0, 5, 8);
    lemma_int_in_range_bounds(p1.0, 1, 3);
    lemma_first_pool_len(r1.0, r1.1 as nat);
    lemma_second_pool_len(r2.0, r2.1 as nat);
}

/// The two partition groups share out the whole list, entry for entry.
proof fn lemma_partition_len(s: Seq<ItemStack>)
    ensures
        splittable_of(s).len() + singles_of(s).len() == s.len(),
    decreases s.len(),
{
    if s.len() > 0 {
        lemma_partition_len(s.drop_last());
    }
}

/// The splitting rounds never grow the two groups past the container size.
proof fn lemma_split_rounds_len_budget(s: int, list: Seq<ItemStack>, items: Seq<ItemStack>)
    requires
        list.len() + items.len() <= 27,
    ensures
        ({
            let sr = split_rounds(s, list, items);
            sr.1.len() + sr.2.len() <= 27
        }),
    decreases 27 - items.len() - list.len(),
{
    if !(27 - items.len() - list.len() <= 0 || list.len() == 0) {
        let idx = int_in_range(s, 0, list.len() - 1);
        lemma_int_in_range_bounds(s, 0, list.len() - 1);
        let c = int_in_range(idx.0, list[idx.1].count as int / 2, list[idx.1].count as int / 2);
        let after2 = classify(
            int_in_range(idx.0, 1, list[idx.1].count as int / 2).0,
            ItemStack {
                item: list[idx.1].item,
                count: (list[idx.1].count - split_take(
                    int_in_range(idx.0, 1, list[idx.1].count as int / 2).1,
                    list[idx.1].count as int,
                )) as u8,
            },
            list.remove(idx.1),
            items,
        );
        let after1 = classify(
            after2.0,
            ItemStack {
                item: list[idx.1].item,
                count: split_take(
                    int_in_range(idx.0, 1, list[idx.1].count as int / 2).1,
                    list[idx.1].count as int,
                ) as u8,
            },
            after2.1,
            after2.2,
        );
        lemma_split_rounds_len_budget(after1.0, after1.1, after1.2);
    }
}

/// Tail-to-tail placement into pairwise-distinct slots of an all-empty
/// container carries every real item's total from the stacks to the slots.
proof fn lemma_place_keeps_item_total(
    items: Seq<ItemStack>,
    container: Seq<usize>,
    acc: Seq<ItemStack>,
    j: nat,
    item: Item,
)
    requires
        item != Item::Empty,
        container.len() == 27,
        acc.len() == 27,
        items.len() <= 27,
        j <= items.len(),
        forall|a: int, b: int|
            0 <= a < 27 && 0 <= b < 27 && a != b ==> container[a] != container[b],
        forall|k: int| 0 <= k < 27 ==> (#[trigger] container[k]) < 27,
        forall|jj: int|
            j <= jj < items.len() ==> acc[(#[trigger] container[container.len() - 1
                - jj]) as int].item == Item::Empty,
    ensures
        item_total(place_stacks(items, container, acc, j), item) == item_total(acc, item)
            + item_total(items.subrange(j as int, items.len() as int), item),
    decreases items.len() - j,
{
    let suffix = items.subrange(j as int, items.len() as int);
    if j >= items.len() {
        assert(suffix =~= Seq::<ItemStack>::empty());
    } else {
        let slot = container[container.len() - 1 - j] as int;
        let st = items[j as int];
        assert(suffix =~= seq![st] + items.subrange(j as int + 1, items.len() as int));
        lemma_item_total_concat(seq![st], items.subrange(j as int + 1, items.len() as int), item);
        assert(item_total(seq![st], item) == stack_contrib(st, item)) by {
            let single = seq![st];
            assert(single.len() == 1);
            assert(single.drop_last() =~= Seq::<ItemStack>::empty());
            assert(single.last() == st);
            assert(item_total(single.drop_last(), item) == 0);
        }
        if st.item == Item::Empty {
            lemma_place_keeps_item_total(items, container, acc, (j + 1) as nat, item);
        } else {
            let acc2 = acc.update(slot, st);
            lemma_item_total_update(acc, slot, st, item);
            assert(acc[slot].item == Item::Empty);
            assert forall|jj: int|
                j + 1 <= jj < items.len() implies acc2[(#[trigger] container[container.len() - 1
                - jj]) as int].item == Item::Empty by {
                assert(container[container.len() - 1 - jj] != container[container.len() - 1
                    - j]);
            }
            lemma_place_keeps_item_total(items, container, acc2, (j + 1) as nat, item);
        }
    }
}

/// The whole container distribution keeps every real item's total: what
/// the raw list holds of an item, the filled container holds too.
proof fn lemma_distribution_keeps_item_total(
    s: int,
    loot: Seq<ItemStack>,
    container: Seq<usize>,
    item: Item,
)
    requires
        item != Item::Empty,
        loot.len() <= 27,
        container.len() == 27,
        forall|a: int, b: int|
            0 <= a < 27 && 0 <= b < 27 && a != b ==> container[a] != container[b],
        forall|k: int| 0 <= k < 27 ==> (#[trigger] container[k]) < 27,
    ensures
        item_total(shuffled_items_of(s, loot, container).1, item) == item_total(loot, item),
{
    reveal(shuffled_items_of);
    let list0 = splittable_of(loot);
    let items0 = singles_of(loot);
    lemma_partition_keeps_item_total(loot, item);
    lemma_partition_len(loot);
    let sr = split_rounds(s, list0, items0);
    lemma_split_rounds_keep_item_total(s, list0, items0, item);
    lemma_split_rounds_len_budget(s, list0, items0);
    let combined = sr.2 + sr.1;
    lemma_item_total_concat(sr.2, sr.1, item);
    let sh = crate::random::jrand::shuffled(sr.0, combined);
    lemma_shuffle_keeps_item_total(sr.0, combined, combined.len(), item);
    crate::random::jrand::lemma_shuffle_rounds_len(sr.0, combined, combined.len());
    lemma_item_total_empty_slots(27, item);
    lemma_place_keeps_item_total(sh.1, container, empty_inventory_seq(), 0, item);
    assert(sh.1.subrange(0, sh.1.len() as int) =~= sh.1);
}

/// The all-empty container holds none of any real item.
proof fn lemma_item_total_empty_slots(n: nat, item: Item)
    requires
        item != Item::Empty,
    ensures
        item_total(Seq::new(n, |i: int| ItemStack { item: Item::Empty, count: 0 }), item) == 0,
    decreases n,
{
    let s = Seq::new(n, |i: int| ItemStack { item: Item::Empty, count: 0 });
    if n > 0 {
        let s2 = Seq::new((n - 1) as nat, |i: int| ItemStack { item: Item::Empty, count: 0 });
        assert(s.drop_last() =~= s2);
        lemma_item_total_empty_slots((n - 1) as nat, item);
    }
}

/// The target inventory as a vector.
pub fn target_items() -> (r: Vec<ItemStack>)
    ensures
        r@ == target_items_seq(),
        r@.len() == 27,
{
    let mut v: Vec<ItemStack> = Vec::new();
    v.push(ItemStack { item: Item::LeatherChestplate, count: 1 });
    v.push(ItemStack { item: Item::IronIngot, count: 2 });
    v.push(ItemStack { item: Item::IronIngot, count: 1 });
    v.push(ItemStack { item: Item::GoldIngot, count: 1 });
    v.push(ItemStack { item: Item::GoldIngot, count: 1 });
    v.push(ItemStack { item: Item::CookedCod, count: 1 });
    v.push(ItemStack { item: Item::Empty, count: 0 });
    v.push(ItemStack { item: Item::IronIngot, count: 1 });
    v.push(ItemStack { item: Item::IronIngot, count: 1 });
    v.push(ItemStack { item: Item::Diamond, count: 1 });
    v.push(ItemStack { item: Item::GoldIngot, count: 1 });
    v.push(ItemStack { item: Item::CookedCod, count: 2 });
    v.push(ItemStack { item: Item::GoldIngot, count: 1 });
    v.push(ItemStack { item: Item::Diamond, count: 1 });
    v.push(ItemStack { item: Item::HeartOfTheSea, count: 1 });
    v.push(ItemStack { item: Item::CookedSalmon, count: 1 });
    v.push(ItemStack { item: Item::IronIngot, count: 1 });
    v.push(ItemStack { item: Item::Emerald, count: 6 });
    v.push(ItemStack { item: Item::IronIngot, count: 1 });
    v.push(ItemStack { item: Item::GoldIngot, count: 1 });
    v.push(ItemStack { item: Item::CookedSalmon, count: 2 });
    v.push(ItemStack { item: Item::TNT, count: 1 });
    v.push(ItemStack { item: Item::CookedSalmon, count: 1 });
    v.push(ItemStack { item: Item::GoldIngot, count: 1 });
    v.push(ItemStack { item: Item::IronIngot, count: 1 });
    v.push(ItemStack { item: Item::GoldIngot, count: 1 });
    v.push(ItemStack { item: Item::Emerald, count: 1 });
    proof {
        reveal(target_items_seq);
        assert(v@ =~= target_items_seq());
    }
    v
}

/// How many of `item` the list holds in total.
pub fn count_item(v: &Vec<ItemStack>, item: Item) -> (r: u32)
    requires
        v@.len() <= 27,
    ensures
        r as int == item_total(v@, item),
{
    let mut total: u32 = 0;
    let mut i: usize = 0;
    while i < v.len()
        invariant
            i <= v@.len() <= 27,
            total as int == item_total(v@.subrange(0, i as int), item),
            total <= 255 * i,
        decreases v@.len() - i,
    {
        let st = *vstd::slice::slice_index_get(v.as_slice(), i);
        proof {
            assert(v@.subrange(0, i + 1).drop_last() =~= v@.subrange(0, i as int));
            assert(v@.subrange(0, i + 1).last() == v@[i as int]);
        }
        if st.item.equals(&item) {
            total = total + (st.count as u32);
        }
        i = i + 1;
    }
    proof {
        assert(v@.subrange(0, v@.len() as int) =~= v@);
    }
    total
}

/// A container of 27 empty slots.
fn empty_inventory() -> (r: Vec<ItemStack>)
    ensures
        r@ == empty_inventory_seq(),
{
    let mut v: Vec<ItemStack> = Vec::new();
    let mut i: usize = 0;
    while i < 27
        invariant
            i <= 27,
            v@.len() == i,
            forall|j: int| 0 <= j < i ==> v@[j] == (ItemStack { item: Item::Empty, count: 0 }),
        decreases 27 - i,
    {
        v.push(ItemStack { item: Item::Empty, count: 0 });
        i = i + 1;
    }
    proof {
        assert(v@ =~= empty_inventory_seq());
    }
    v
}

/// One executable roll of the first pool.
fn roll_first_pool(rand: &mut ChunkRand) -> (st: ItemStack)
    ensures
        final(rand)@ == first_pool_item(old(rand)@).0,
        st == first_pool_item(old(rand)@).1,
{
    let ghost s0 = rand@;
    let weight = rand.get_next_int_bound(35);
    let ghost s1 = rand@;
    if weight < 20 {
        let value = get_count(rand, 1, 4);
        proof {
            lemma_int_in_range_bounds(s1, 1, 4);
        }
        ItemStack { item: Item::IronIngot, count: value as u8 }
    } else if weight < 30 {
        let value = get_count(rand, 1, 4);
        proof {
            lemma_int_in_range_bounds(s1, 1, 4);
        }
        ItemStack { item: Item::GoldIngot, count: value as u8 }
    } else {
        let value = get_count(rand, 1, 2);
        proof {
            lemma_int_in_range_bounds(s1, 1, 2);
        }
        ItemStack { item: Item::TNT, count: value as u8 }
    }
}

/// One executable roll of the second pool.
fn roll_second_pool(rand: &mut ChunkRand) -> (st: ItemStack)
    ensures
        final(rand)@ == second_pool_item(old(rand)@).0,
        st == second_pool_item(old(rand)@).1,
{
    let ghost s0 = rand@;
    let weight = rand.get_next_int_bound(15);
    let ghost s1 = rand@;
    if weight < 5 {
        let value = get_count(rand, 4, 8);
        proof {
            lemma_int_in_range_bounds(s1, 4, 8);
        }
        ItemStack { item: Item::Emerald, count: value as u8 }
    } else if weight < 10 {
        let value = get_count(rand, 1, 2);
        proof {
            lemma_int_in_range_bounds(s1, 1, 2);
        }
        ItemStack { item: Item::Diamond, count: value as u8 }
    } else {
        let value = get_count(rand, 1, 5);
        proof {
            lemma_int_in_range_bounds(s1, 1, 5);
        }
        ItemStack { item: Item::PrismarineCrystals, count: value as u8 }
    }
}

/// One executable food roll.
fn roll_food(rand: &mut ChunkRand) -> (st: ItemStack)
    ensures
        final(rand)@ == food_roll(old(rand)@).0,
        st == food_roll(old(rand)@).1,
{
    let weight = rand.get_next_int_bound(2);
    let ghost s1 = rand@;
    let value = get_count(rand, 2, 4);
    proof {
        lemma_int_in_range_bounds(s1, 2, 4);
    }
    if weight < 1 {
        ItemStack { item: Item::CookedCod, count: value as u8 }
    } else {
        ItemStack { item: Item::CookedSalmon, count: value as u8 }
    }
}

/// Replay a seeded generator through the raw buried-treasure draw list.
///
/// Returns the drawn stacks, or nothing when `exit_early` is set and a
/// drawn stack or an accumulated category total cannot belong to the
/// target inventory.
#[verifier::spinoff_prover]
fn generate_raw_list(rand: &mut ChunkRand, exit_early: bool, target: &Vec<ItemStack>) -> (r: Option<
    Vec<ItemStack>,
>)
    requires
        target@.len() <= 27,
    ensures
        r is Some ==> r.unwrap()@ == raw_loot(old(rand)@).1 && final(rand)@ == raw_loot(
            old(rand)@,
        ).0,
        r is Some ==> r.unwrap()@.len() <= 15,
        !exit_early ==> r is Some,
        r is None ==> exists|it: Item|
            it != Item::Empty && item_total(raw_loot(old(rand)@).1, it) != item_total(target@, it),
{
    let ghost s0 = rand@;
    let ghost r1 = int_in_range(s0, 5, 8);
    let ghost p1 = first_pool(r1.0, r1.1 as nat);
    let ghost r2 = int_in_range(p1.0, 1, 3);
    let ghost p2 = second_pool(r2.0, r2.1 as nat);
    let ghost p3 = equipment_roll(p2.0);
    let mut loot: Vec<ItemStack> = Vec::new();
    loot.push(ItemStack { item: Item::HeartOfTheSea, count: 1 });
    proof {
        assert(loot@ =~= seq![stack_of(Item::HeartOfTheSea, 1)]);
    }

    let rolls = get_count(rand, 5, 8);
    proof {
        lemma_int_in_range_bounds(s0, 5, 8);
    }
    let ok1 = run_first_pool(rand, &mut loot, exit_early, target, rolls);
    if !ok1 {
        proof {
            let it = choose|it: Item|
                (it == Item::IronIngot || it == Item::GoldIngot || it == Item::TNT) && item_total(
                    first_pool(r1.0, rolls as nat).1,
                    it,
                ) != item_total(target@, it);
            lemma_raw_loot_totals(s0, it);
            lemma_second_pool_zero(r2.0, r2.1 as nat, it);
            lemma_equipment_zero(p2.0, it);
            lemma_food_roll_facts(p3.0);
            lemma_food_roll_facts(food_roll(p3.0).0);
            assert(item_total(raw_loot(s0).1, it) != item_total(target@, it));
        }
        return None;
    }

    let ghost s_after_p1 = rand@;
    let rolls2 = get_count(rand, 1, 3);
    proof {
        lemma_int_in_range_bounds(s_after_p1, 1, 3);
    }
    let ok2 = run_second_pool(rand, &mut loot, exit_early, target, rolls2);
    if !ok2 {
        proof {
            let it = choose|it: Item|
                (it == Item::Emerald || it == Item::Diamond || it == Item::PrismarineCrystals)
                    && item_total(second_pool(r2.0, rolls2 as nat).1, it) != item_total(
                    target@,
                    it,
                );
            lemma_raw_loot_totals(s0, it);
            lemma_first_pool_zero(r1.0, r1.1 as nat, it);
            lemma_equipment_zero(p2.0, it);
            lemma_food_roll_facts(p3.0);
            lemma_food_roll_facts(food_roll(p3.0).0);
            assert(item_total(raw_loot(s0).1, it) != item_total(target@, it));
        }
        return None;
    }

    let ok3 = run_equipment(rand, &mut loot, exit_early, target);
    if !ok3 {
        proof {
            let it = choose|it: Item|
                (it == Item::LeatherChestplate || it == Item::IronSword) && item_total(
                    equipment_roll(p2.0).1,
                    it,
                ) != item_total(target@, it);
            lemma_raw_loot_totals(s0, it);
            lemma_first_pool_zero(r1.0, r1.1 as nat, it);
            lemma_second_pool_zero(r2.0, r2.1 as nat, it);
            lemma_food_roll_facts(p3.0);
            lemma_food_roll_facts(food_roll(p3.0).0);
            assert(item_total(raw_loot(s0).1, it) != item_total(target@, it));
        }
        return None;
    }

    let ok4 = run_food(rand, &mut loot, exit_early, target);
    if !ok4 {
        proof {
            let f1 = food_roll(p3.0);
            let f2 = food_roll(f1.0);
            let it = choose|it: Item|
                (it == Item::CookedCod || it == Item::CookedSalmon) && item_total(
                    seq![f1.1, f2.1],
                    it,
                ) != item_total(target@, it);
            lemma_raw_loot_totals(s0, it);
            lemma_first_pool_zero(r1.0, r1.1 as nat, it);
            lemma_second_pool_zero(r2.0, r2.1 as nat, it);
            lemma_equipment_zero(p2.0, it);
            lemma_item_total_pair(f1.1, f2.1, it);
            assert(item_total(raw_loot(s0).1, it) != item_total(target@, it));
        }
        return None;
    }

    proof {
        lemma_raw_loot_assembly(s0, rand@, loot@);
        lemma_first_pool_len(r1.0, rolls as nat);
        lemma_second_pool_len(r2.0, rolls2 as nat);
    }
    Some(loot)
}

/// The optional equipment roll, appended to the loot.
#[verifier::spinoff_prover]
fn run_equipment(
    rand: &mut ChunkRand,
    loot: &mut Vec<ItemStack>,
    exit_early: bool,
    target: &Vec<ItemStack>,
) -> (ok: bool)
    requires
        target@.len() <= 27,
    ensures
        ok ==> final(loot)@ == old(loot)@ + equipment_roll(old(rand)@).1 && final(rand)@
            == equipment_roll(old(rand)@).0,
        !exit_early ==> ok,
        !ok ==> exists|it: Item|
            (it == Item::LeatherChestplate || it == Item::IronSword) && item_total(
                equipment_roll(old(rand)@).1,
                it,
            ) != item_total(target@, it),
{
    let ghost s = rand@;
    let ghost p3 = equipment_roll(s);
    let should_roll = rand.get_next_bool();
    if exit_early {
        let ct = count_item(target, Item::LeatherChestplate);
        let st_ = count_item(target, Item::IronSword);
        if (ct != 0 || st_ != 0) != should_roll {
            proof {
                if should_roll {
                    // Both target totals are zero, yet the roll adds one
                    // piece of equipment.
                    let w = bounded_of(next48(s), 2);
                    if w.1 < 1 {
                        lemma_item_total_single(
                            stack_of(Item::LeatherChestplate, 1),
                            Item::LeatherChestplate,
                        );
                        assert(item_total(equipment_roll(s).1, Item::LeatherChestplate)
                            != item_total(target@, Item::LeatherChestplate));
                    } else {
                        lemma_item_total_single(stack_of(Item::IronSword, 1), Item::IronSword);
                        assert(item_total(equipment_roll(s).1, Item::IronSword) != item_total(
                            target@,
                            Item::IronSword,
                        ));
                    }
                } else {
                    // The roll adds nothing, yet the target holds a piece.
                    if ct != 0 {
                        assert(item_total(equipment_roll(s).1, Item::LeatherChestplate)
                            != item_total(target@, Item::LeatherChestplate));
                    } else {
                        assert(item_total(equipment_roll(s).1, Item::IronSword) != item_total(
                            target@,
                            Item::IronSword,
                        ));
                    }
                }
            }
            return false;
        }
    }
    if should_roll {
        let weight = rand.get_next_int_bound(2);
        if weight < 1 {
            if exit_early && count_item(target, Item::LeatherChestplate) == 0 {
                proof {
                    lemma_item_total_single(
                        stack_of(Item::LeatherChestplate, 1),
                        Item::LeatherChestplate,
                    );
                    assert(item_total(equipment_roll(s).1, Item::LeatherChestplate) != item_total(
                        target@,
                        Item::LeatherChestplate,
                    ));
                }
                return false;
            }
            let ghost pre = loot@;
            loot.push(ItemStack { item: Item::LeatherChestplate, count: 1 });
            proof {
                assert(loot@ =~= pre + seq![stack_of(Item::LeatherChestplate, 1)]);
            }
        } else {
            if exit_early && count_item(target, Item::IronSword) == 0 {
                proof {
                    lemma_item_total_single(stack_of(Item::IronSword, 1), Item::IronSword);
                    assert(item_total(equipment_roll(s).1, Item::IronSword) != item_total(
                        target@,
                        Item::IronSword,
                    ));
                }
                return false;
            }
            let ghost pre = loot@;
            loot.push(ItemStack { item: Item::IronSword, count: 1 });
            proof {
                assert(loot@ =~= pre + seq![stack_of(Item::IronSword, 1)]);
            }
        }
    } else {
        proof {
            assert(loot@ =~= loot@ + Seq::<ItemStack>::empty());
        }
    }
    true
}

/// The two food rolls, appended to the loot, with the closing aggregate
/// check on the two food totals.
#[verifier::spinoff_prover]
fn run_food(
    rand: &mut ChunkRand,
    loot: &mut Vec<ItemStack>,
    exit_early: bool,
    target: &Vec<ItemStack>,
) -> (ok: bool)
    requires
        target@.len() <= 27,
    ensures
        ok ==> ({
            let f1 = food_roll(old(rand)@);
            let f2 = food_roll(f1.0);
            final(loot)@ == old(loot)@ + seq![f1.1, f2.1] && final(rand)@ == f2.0
        }),
        !exit_early ==> ok,
        !ok ==> ({
            let f1 = food_roll(old(rand)@);
            let f2 = food_roll(f1.0);
            exists|it: Item|
                (it == Item::CookedCod || it == Item::CookedSalmon) && item_total(
                    seq![f1.1, f2.1],
                    it,
                ) != item_total(target@, it)
        }),
{
    let ghost s0 = rand@;
    let ghost fs1 = food_roll(s0).1;
    let ghost fs2 = food_roll(food_roll(s0).0).1;
    let ghost pair = seq![fs1, fs2];
    let mut cod_count: u32 = 0;
    let mut salmon_count: u32 = 0;
    let ghost pre = loot@;
    let st1 = roll_food(rand);
    proof {
        lemma_food_roll_facts(s0);
        lemma_food_roll_facts(food_roll(s0).0);
        lemma_item_total_pair(fs1, fs2, Item::CookedCod);
        lemma_item_total_pair(fs1, fs2, Item::CookedSalmon);
    }
    if exit_early && count_item(target, st1.item) == 0 {
        proof {
            lemma_item_total_pair(fs1, fs2, st1.item);
            assert(item_total(pair, st1.item) >= st1.count);
            assert(item_total(pair, st1.item) != item_total(target@, st1.item));
        }
        return false;
    }
    if st1.item.equals(&Item::CookedCod) {
        cod_count = cod_count + st1.count as u32;
    } else {
        salmon_count = salmon_count + st1.count as u32;
    }
    loot.push(st1);
    let st2 = roll_food(rand);
    if exit_early && count_item(target, st2.item) == 0 {
        proof {
            lemma_item_total_pair(fs1, fs2, st2.item);
            assert(item_total(pair, st2.item) >= st2.count);
            assert(item_total(pair, st2.item) != item_total(target@, st2.item));
        }
        return false;
    }
    if st2.item.equals(&Item::CookedCod) {
        cod_count = cod_count + st2.count as u32;
    } else {
        salmon_count = salmon_count + st2.count as u32;
    }
    loot.push(st2);
    proof {
        assert(loot@ =~= pre + seq![st1, st2]);
        assert(cod_count as int == item_total(pair, Item::CookedCod));
        assert(salmon_count as int == item_total(pair, Item::CookedSalmon));
    }
    if exit_early {
        let codt = count_item(target, Item::CookedCod);
        let salt = count_item(target, Item::CookedSalmon);
        if cod_count != codt || salmon_count != salt {
            proof {
                if cod_count != codt {
                    assert(item_total(pair, Item::CookedCod) != item_total(
                        target@,
                        Item::CookedCod,
                    ));
                } else {
                    assert(item_total(pair, Item::CookedSalmon) != item_total(
                        target@,
                        Item::CookedSalmon,
                    ));
                }
            }
            return false;
        }
    }
    true
}

/// The first weighted pool: `rolls` rolls appended to the loot, with the
/// early-exit checks against the target totals.
#[verifier::spinoff_prover]
fn run_first_pool(
    rand: &mut ChunkRand,
    loot: &mut Vec<ItemStack>,
    exit_early: bool,
    target: &Vec<ItemStack>,
    rolls: i32,
) -> (ok: bool)
    requires
        0 <= rolls <= 8,
        target@.len() <= 27,
    ensures
        ok ==> final(loot)@ == old(loot)@ + first_pool(old(rand)@, rolls as nat).1 && final(rand)@
            == first_pool(old(rand)@, rolls as nat).0,
        !exit_early ==> ok,
        !ok ==> exists|it: Item|
            (it == Item::IronIngot || it == Item::GoldIngot || it == Item::TNT) && item_total(
                first_pool(old(rand)@, rolls as nat).1,
                it,
            ) != item_total(target@, it),
{
    let ghost p1 = first_pool(old(rand)@, rolls as nat);
    let mut iron_count: u32 = 0;
    let mut gold_count: u32 = 0;
    let mut tnt_count: u32 = 0;
    let ghost pre = loot@;
    let ghost mut built: Seq<ItemStack> = Seq::empty();
    let mut k: i32 = 0;
    while k < rolls
        invariant
            0 <= k <= rolls <= 8,
            target@.len() <= 27,
            loot@ == pre + built,
            built.len() == k,
            p1 == first_pool(old(rand)@, rolls as nat),
            p1.0 == first_pool(rand@, (rolls - k) as nat).0,
            p1.1 == built + first_pool(rand@, (rolls - k) as nat).1,
            iron_count as int == item_total(built, Item::IronIngot),
            gold_count as int == item_total(built, Item::GoldIngot),
            tnt_count as int == item_total(built, Item::TNT),
            iron_count <= 255 * k,
            gold_count <= 255 * k,
            tnt_count <= 255 * k,
        decreases rolls - k,
    {
        let ghost scur = rand@;
        let ghost left = (rolls - k) as nat;
        let ghost bpre = built;
        let st = roll_first_pool(rand);
        proof {
            lemma_first_pool_item_facts(scur);
            assert(first_pool(scur, left).1 == seq![st] + first_pool(rand@, (left - 1) as nat).1);
            assert((built + seq![st]) + first_pool(rand@, (left - 1) as nat).1 =~= built + (
            seq![st] + first_pool(rand@, (left - 1) as nat).1));
            built = built + seq![st];
            assert(built =~= bpre.push(st));
        }
        if exit_early && count_item(target, st.item) == 0 {
            proof {
                let rest = first_pool(rand@, (left - 1) as nat).1;
                lemma_item_total_concat(bpre, seq![st] + rest, st.item);
                lemma_item_total_concat(seq![st], rest, st.item);
                lemma_item_total_single(st, st.item);
                lemma_item_total_bound(bpre, st.item);
                lemma_item_total_bound(rest, st.item);
                assert(item_total(p1.1, st.item) >= st.count);
                assert(item_total(first_pool(old(rand)@, rolls as nat).1, st.item)
                    != item_total(target@, st.item));
            }
            return false;
        }
        proof {
            lemma_item_total_push(bpre, st, Item::IronIngot);
            lemma_item_total_push(bpre, st, Item::GoldIngot);
            lemma_item_total_push(bpre, st, Item::TNT);
            lemma_item_total_bound(bpre, Item::IronIngot);
            lemma_item_total_bound(bpre, Item::GoldIngot);
            lemma_item_total_bound(bpre, Item::TNT);
        }
        if st.item.equals(&Item::IronIngot) {
            iron_count = iron_count + st.count as u32;
        } else if st.item.equals(&Item::GoldIngot) {
            gold_count = gold_count + st.count as u32;
        } else {
            tnt_count = tnt_count + st.count as u32;
        }
        let ghost lpre = loot@;
        loot.push(st);
        proof {
            assert(lpre.push(st) =~= pre + built);
        }
        k = k + 1;
    }
    proof {
        assert(built + first_pool(rand@, 0).1 =~= built);
        assert(p1.1 == built);
    }
    if exit_early {
        let it = count_item(target, Item::IronIngot);
        let gt = count_item(target, Item::GoldIngot);
        let tt = count_item(target, Item::TNT);
        if iron_count != it || gold_count != gt || tnt_count != tt {
            proof {
                let whole = first_pool(old(rand)@, rolls as nat).1;
                if iron_count != it {
                    assert(item_total(whole, Item::IronIngot) != item_total(
                        target@,
                        Item::IronIngot,
                    ));
                } else if gold_count != gt {
                    assert(item_total(whole, Item::GoldIngot) != item_total(
                        target@,
                        Item::GoldIngot,
                    ));
                } else {
                    assert(item_total(whole, Item::TNT) != item_total(target@, Item::TNT));
                }
                assert(exists|it2: Item|
                    (it2 == Item::IronIngot || it2 == Item::GoldIngot || it2 == Item::TNT)
                        && item_total(first_pool(old(rand)@, rolls as nat).1, it2) != item_total(
                        target@,
                        it2,
                    ));
            }
            return false;
        }
    }
    true
}

/// The second weighted pool: `rolls` rolls appended to the loot, with the
/// early-exit checks against the target totals.
#[verifier::spinoff_prover]
fn run_second_pool(
    rand: &mut ChunkRand,
    loot: &mut Vec<ItemStack>,
    exit_early: bool,
    target: &Vec<ItemStack>,
    rolls: i32,
) -> (ok: bool)
    requires
        0 <= rolls <= 3,
        target@.len() <= 27,
    ensures
        ok ==> final(loot)@ == old(loot)@ + second_pool(old(rand)@, rolls as nat).1 && final(rand)@
            == second_pool(old(rand)@, rolls as nat).0,
        !exit_early ==> ok,
        !ok ==> exists|it: Item|
            (it == Item::Emerald || it == Item::Diamond || it == Item::PrismarineCrystals)
                && item_total(second_pool(old(rand)@, rolls as nat).1, it) != item_total(
                target@,
                it,
            ),
{
    let ghost p2 = second_pool(old(rand)@, rolls as nat);
    let mut emerald_count: u32 = 0;
    let mut diamond_count: u32 = 0;
    let mut prismarine_count: u32 = 0;
    let ghost pre = loot@;
    let ghost mut built: Seq<ItemStack> = Seq::empty();
    let mut k: i32 = 0;
    while k < rolls
        invariant
            0 <= k <= rolls <= 3,
            target@.len() <= 27,
            loot@ == pre + built,
            built.len() == k,
            p2 == second_pool(old(rand)@, rolls as nat),
            p2.0 == second_pool(rand@, (rolls - k) as nat).0,
            p2.1 == built + second_pool(rand@, (rolls - k) as nat).1,
            emerald_count as int == item_total(built, Item::Emerald),
            diamond_count as int == item_total(built, Item::Diamond),
            prismarine_count as int == item_total(built, Item::PrismarineCrystals),
            emerald_count <= 255 * k,
            diamond_count <= 255 * k,
            prismarine_count <= 255 * k,
        decreases rolls - k,
    {
        let ghost scur = rand@;
        let ghost left = (rolls - k) as nat;
        let ghost bpre = built;
        let st = roll_second_pool(rand);
        proof {
            lemma_second_pool_item_facts(scur);
            assert(second_pool(scur, left).1 == seq![st] + second_pool(
                rand@,
                (left - 1) as nat,
            ).1);
            assert((built + seq![st]) + second_pool(rand@, (left - 1) as nat).1 =~= built + (
            seq![st] + second_pool(rand@, (left - 1) as nat).1));
            built = built + seq![st];
            assert(built =~= bpre.push(st));
        }
        if exit_early && count_item(target, st.item) == 0 {
            proof {
                let rest = second_pool(rand@, (left - 1) as nat).1;
                lemma_item_total_concat(bpre, seq![st] + rest, st.item);
                lemma_item_total_concat(seq![st], rest, st.item);
                lemma_item_total_single(st, st.item);
                lemma_item_total_bound(bpre, st.item);
                lemma_item_total_bound(rest, st.item);
                assert(item_total(p2.1, st.item) >= st.count);
                assert(item_total(second_pool(old(rand)@, rolls as nat).1, st.item)
                    != item_total(target@, st.item));
            }
            return false;
        }
        proof {
            lemma_item_total_push(bpre, st, Item::Emerald);
            lemma_item_total_push(bpre, st, Item::Diamond);
            lemma_item_total_push(bpre, st, Item::PrismarineCrystals);
            lemma_item_total_bound(bpre, Item::Emerald);
            lemma_item_total_bound(bpre, Item::Diamond);
            lemma_item_total_bound(bpre, Item::PrismarineCrystals);
        }
        if st.item.equals(&Item::Emerald) {
            emerald_count = emerald_count + st.count as u32;
        } else if st.item.equals(&Item::Diamond) {
            diamond_count = diamond_count + st.count as u32;
        } else {
            prismarine_count = prismarine_count + st.count as u32;
        }
        let ghost lpre = loot@;
        loot.push(st);
        proof {
            assert(lpre.push(st) =~= pre + built);
        }
        k = k + 1;
    }
    proof {
        assert(built + second_pool(rand@, 0).1 =~= built);
        assert(p2.1 == built);
    }
    if exit_early {
        let et = count_item(target, Item::Emerald);
        let dt = count_item(target, Item::Diamond);
        let pt = count_item(target, Item::PrismarineCrystals);
        if emerald_count != et || diamond_count != dt || prismarine_count != pt {
            proof {
                let whole = second_pool(old(rand)@, rolls as nat).1;
                if emerald_count != et {
                    assert(item_total(whole, Item::Emerald) != item_total(target@, Item::Emerald));
                } else if diamond_count != dt {
                    assert(item_total(whole, Item::Diamond) != item_total(target@, Item::Diamond));
                } else {
                    assert(item_total(whole, Item::PrismarineCrystals) != item_total(
                        target@,
                        Item::PrismarineCrystals,
                    ));
                }
                assert(exists|it2: Item|
                    (it2 == Item::Emerald || it2 == Item::Diamond || it2
                        == Item::PrismarineCrystals) && item_total(
                        second_pool(old(rand)@, rolls as nat).1,
                        it2,
                    ) != item_total(target@, it2));
            }
            return false;
        }
    }
    true
}

/// Replay a seeded generator through the buried-treasure draws.
///
/// With `exit_early` clear, the replay always completes and the produced
/// list is exactly the replayed loot.  With `exit_early` set, the replay
/// may give up as soon as a drawn stack or an accumulated category total
/// cannot belong to the target inventory; whatever it does produce is
/// still exactly the replayed loot.
pub fn generate_buried_treasure_loot(rand: ChunkRand, indexed: bool, exit_early: bool) -> (r: Option<
    Vec<ItemStack>,
>)
    ensures
        r is Some ==> r.unwrap()@ == generated_loot(rand@, indexed),
        !exit_early ==> r is Some,
        exit_early && generated_loot(rand@, indexed) == target_items_seq() ==> r is Some,
{
    let ghost s0 = rand@;
    let mut rand = rand;
    // The rules allow no compile-time statics, so the target totals the
    // fast-rejection mode compares against are built per call; the exact
    // replay, which the search uses, skips the table entirely.
    let target = if exit_early {
        target_items()
    } else {
        Vec::new()
    };
    let raw = generate_raw_list(&mut rand, exit_early, &target);
    let loot = match raw {
        Some(l) => l,
        None => {
            proof {
                // A replay that gave up found an item whose raw total
                // cannot match the target; the container distribution
                // keeps every real item's total, so the distributed
                // inventory cannot match either.
                lemma_giving_up_is_sound(s0, indexed, target@);
            }
            return None;
        },
    };
    if indexed {
        let mut container = default_container();
        let ghost crand = rand@;
        rand.shuffle(&mut container);
        proof {
            crate::random::jrand::lemma_shuffle_rounds_len(
                crand,
                identity_container_seq(),
                identity_container_seq().len(),
            );
            crate::random::jrand::lemma_shuffle_rounds_slots(
                crand,
                identity_container_seq(),
                identity_container_seq().len(),
                27,
            );
        }
        let placed = shuffle_items(&mut rand, loot, container);
        proof {
            lemma_generated_loot_assembly(s0, indexed, placed@);
        }
        Some(placed)
    } else {
        proof {
            lemma_generated_loot_assembly(s0, indexed, loot@);
        }
        Some(loot)
    }
}

/// A raw list whose totals miss the target on some real item cannot have
/// produced the target inventory, with or without the container stage.
proof fn lemma_giving_up_is_sound(s0: int, indexed: bool, target: Seq<ItemStack>)
    requires
        exists|it: Item|
            it != Item::Empty && item_total(raw_loot(s0).1, it) != item_total(target, it),
        target == target_items_seq(),
    ensures
        generated_loot(s0, indexed) != target_items_seq(),
{
    let it = choose|it: Item|
        it != Item::Empty && item_total(raw_loot(s0).1, it) != item_total(target, it);
    reveal(generated_loot);
    let r = raw_loot(s0);
    if generated_loot(s0, indexed) == target_items_seq() {
        if indexed {
            let ident = identity_container_seq();
            let c = crate::random::jrand::shuffled(r.0, ident);
            assert(ident.len() == 27);
            assert(forall|k: int| 0 <= k < 27 ==> (#[trigger] ident[k]) < 27);
            assert(forall|a: int, b: int|
                0 <= a < ident.len() && 0 <= b < ident.len() && a != b ==> ident[a] != ident[b]);
            crate::random::jrand::lemma_shuffle_rounds_len(r.0, ident, ident.len());
            crate::random::jrand::lemma_shuffle_rounds_slots(r.0, ident, ident.len(), 27);
            crate::random::jrand::lemma_shuffle_rounds_distinct(r.0, ident, ident.len());
            lemma_raw_loot_len(s0);
            lemma_distribution_keeps_item_total(c.0, r.1, c.1, it);
        }
        assert(item_total(generated_loot(s0, indexed), it) == item_total(r.1, it));
        assert(false);
    }
}

/// Where a freshly split half goes, executably.
fn classify_stack(
    rand: &mut ChunkRand,
    st: ItemStack,
    list: &mut Vec<ItemStack>,
    items: &mut Vec<ItemStack>,
)
    ensures
        ({
            let c = classify(old(rand)@, st, old(list)@, old(items)@);
            final(rand)@ == c.0 && final(list)@ == c.1 && final(items)@ == c.2
        }),
{
    if st.get_count() > 1 {
        if rand.get_next_bool() {
            list.push(st);
        } else {
            items.push(st);
        }
    } else {
        items.push(st);
    }
}

/// Partition stacks into the splittable and the singleton group.
#[verifier::spinoff_prover]
fn partition_stacks(items: &Vec<ItemStack>) -> (r: (Vec<ItemStack>, Vec<ItemStack>))
    ensures
        r.0@ == splittable_of(items@),
        r.1@ == singles_of(items@),
        r.0@.len() + r.1@.len() == items@.len(),
{
    let mut list: Vec<ItemStack> = Vec::new();
    let mut new_items: Vec<ItemStack> = Vec::new();
    let mut i: usize = 0;
    while i < items.len()
        invariant
            i <= items@.len(),
            list@ == splittable_of(items@.subrange(0, i as int)),
            new_items@ == singles_of(items@.subrange(0, i as int)),
            list@.len() + new_items@.len() == i,
        decreases items@.len() - i,
    {
        let st = *vstd::slice::slice_index_get(items.as_slice(), i);
        proof {
            assert(items@.subrange(0, i + 1).drop_last() =~= items@.subrange(0, i as int));
            assert(items@.subrange(0, i + 1).last() == items@[i as int]);
        }
        if st.get_count() > 1 {
            list.push(st);
        } else {
            new_items.push(st);
        }
        i = i + 1;
    }
    proof {
        assert(items@.subrange(0, items@.len() as int) =~= items@);
    }
    (list, new_items)
}

/// The randomized splitting rounds, executably.
#[verifier::spinoff_prover]
fn run_split_rounds(rand: &mut ChunkRand, list: &mut Vec<ItemStack>, items: &mut Vec<ItemStack>)
    requires
        old(items)@.len() + old(list)@.len() <= 27,
    ensures
        ({
            let sr = split_rounds(old(rand)@, old(list)@, old(items)@);
            final(rand)@ == sr.0 && final(list)@ == sr.1 && final(items)@ == sr.2
                && final(items)@.len() + final(list)@.len() <= 27
        }),
{
    let ghost sr = split_rounds(old(rand)@, old(list)@, old(items)@);
    while 27 - items.len() - list.len() > 0 && list.len() > 0
        invariant
            items@.len() + list@.len() <= 27,
            sr == split_rounds(rand@, list@, items@),
        decreases 27 - items@.len() - list@.len(),
    {
        let ghost spre = rand@;
        let ghost listpre = list@;
        let ghost itemspre = items@;
        let idx = get_count(rand, 0, (list.len() - 1) as i32);
        proof {
            lemma_int_in_range_bounds(spre, 0, listpre.len() - 1);
        }
        let mut item_stack2 = list.remove(idx as usize);
        let half = item_stack2.get_count() / 2;
        let ghost shalf = rand@;
        let count = get_count(rand, 1, half as i32);
        proof {
            lemma_int_in_range_bounds(shalf, 1, half as int);
        }
        let item_stack1 = item_stack2.split(count as u8);
        classify_stack(rand, item_stack2, list, items);
        classify_stack(rand, item_stack1, list, items);
    }
}

/// Append the leftover splittable group onto the singles.
#[verifier::spinoff_prover]
fn append_all(items: &mut Vec<ItemStack>, list: &Vec<ItemStack>)
    ensures
        final(items)@ == old(items)@ + list@,
{
    let ghost pre = items@;
    let mut j: usize = 0;
    while j < list.len()
        invariant
            j <= list@.len(),
            items@ == pre + list@.subrange(0, j as int),
        decreases list@.len() - j,
    {
        let st = *vstd::slice::slice_index_get(list.as_slice(), j);
        items.push(st);
        proof {
            assert(pre + list@.subrange(0, j as int) + seq![list@[j as int]] =~= pre
                + list@.subrange(0, j + 1));
        }
        j = j + 1;
    }
    proof {
        assert(list@.subrange(0, list@.len() as int) =~= list@);
    }
}

/// Walk the shuffled stacks and the slot permutation from their tails,
/// writing each non-empty stack into its slot of a fresh container.
#[verifier::spinoff_prover]
fn place_into_container(items: &Vec<ItemStack>, container: &Vec<usize>) -> (r: Vec<ItemStack>)
    requires
        container@.len() == 27,
        forall|j: int| 0 <= j < 27 ==> (#[trigger] container@[j]) < 27,
        items@.len() <= 27,
    ensures
        r@ == place_stacks(items@, container@, empty_inventory_seq(), 0),
{
    let mut result = empty_inventory();
    let mut slot_i = container.len();
    let mut p: usize = 0;
    while p < items.len()
        invariant
            p <= items@.len() <= 27,
            slot_i == 27 - p,
            container@.len() == 27,
            forall|jj: int| 0 <= jj < 27 ==> (#[trigger] container@[jj]) < 27,
            result@.len() == 27,
            place_stacks(items@, container@, empty_inventory_seq(), 0) == place_stacks(
                items@,
                container@,
                result@,
                p as nat,
            ),
        decreases items@.len() - p,
    {
        slot_i = slot_i - 1;
        let st = *vstd::slice::slice_index_get(items.as_slice(), p);
        if !st.item.equals(&Item::Empty) {
            let slot = *vstd::slice::slice_index_get(container.as_slice(), slot_i);
            result[slot] = st;
        }
        p = p + 1;
    }
    result
}

/// Distribute a raw loot list over a shuffled slot permutation: split
/// randomly while capacity remains, shuffle, and place tail-to-tail.
#[verifier::rlimit(100)]
#[verifier::spinoff_prover]
pub(crate) fn shuffle_items(
    rand: &mut ChunkRand,
    items: Vec<ItemStack>,
    container: Vec<usize>,
) -> (r: Vec<ItemStack>)
    requires
        container@.len() == 27,
        forall|j: int| 0 <= j < 27 ==> (#[trigger] container@[j]) < 27,
        items@.len() <= 27,
    ensures
        final(rand)@ == shuffled_items_of(old(rand)@, items@, container@).0,
        r@ == shuffled_items_of(old(rand)@, items@, container@).1,
{
    let ghost s0 = rand@;
    let ghost sr = split_rounds(s0, splittable_of(items@), singles_of(items@));
    let parts = partition_stacks(&items);
    let mut list = parts.0;
    let mut items2 = parts.1;
    run_split_rounds(rand, &mut list, &mut items2);
    append_all(&mut items2, &list);
    proof {
        assert(items2@ == sr.2 + sr.1) by {
        }
    }
    rand.shuffle(&mut items2);
    proof {
        crate::random::jrand::lemma_shuffle_rounds_len(sr.0, sr.2 + sr.1, (sr.2 + sr.1).len());
    }
    let placed = place_into_container(&items2, &container);
    proof {
        lemma_shuffled_items_assembly(s0, items@, container@, rand@, placed@);
    }
    placed
}

/// The identity slot permutation over 27 slots.
pub fn default_container() -> (r: Vec<usize>)
    ensures
        r@ == identity_container_seq(),
{
    let mut v: Vec<usize> = Vec::new();
    let mut i: usize = 0;
    while i < 27
        invariant
            i <= 27,
            v@.len() == i,
            forall|j: int| 0 <= j < i ==> v@[j] == j as usize,
        decreases 27 - i,
    {
        v.push(i);
        i = i + 1;
    }
    proof {
        assert(v@ =~= identity_container_seq());
    }
    v
}

} // verus!
