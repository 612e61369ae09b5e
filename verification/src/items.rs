//! Items and the player's inventory.
use vstd::prelude::*;

verus! {

/// An item that can be equipped to A or B.
#[derive(Clone, Copy, PartialEq, Eq, Debug, Default, Structural)]
pub enum Item {
    #[default]
    Nothing,
    Sword,
    Shield,
    Bombs,
    Bow,
    Boomerang,
    /// Roc's feather: jump over pits and enemies.
    Feather,
    /// Power bracelet: lift rocks as well as bushes.
    Bracelet,
    /// Pegasus boots: hold to dash.
    Boots,
    /// Flippers: swim in deep water.
    Flippers,
}

/// The number an item is stored as, and its bit in the owned mask.
pub open spec fn item_code(i: Item) -> u8 {
    match i {
        Item::Nothing => 0,
        Item::Sword => 1,
        Item::Shield => 2,
        Item::Bombs => 3,
        Item::Bow => 4,
        Item::Boomerang => 5,
        Item::Feather => 6,
        Item::Bracelet => 7,
        Item::Boots => 8,
        Item::Flippers => 9,
    }
}

/// True for items that are simply carried and always in effect.
pub open spec fn is_passive_spec(i: Item) -> bool {
    i == Item::Bracelet || i == Item::Flippers
}

/// Every real item, in code order.
pub open spec fn all_items() -> Seq<Item> {
    seq![
        Item::Sword,
        Item::Shield,
        Item::Bombs,
        Item::Bow,
        Item::Boomerang,
        Item::Feather,
        Item::Bracelet,
        Item::Boots,
        Item::Flippers,
    ]
}

impl Item {
    /// Every real item, in code order.
    pub fn all() -> (r: [Item; 9])
        ensures
            r@ == all_items(),
    {
        [
            Item::Sword,
            Item::Shield,
            Item::Bombs,
            Item::Bow,
            Item::Boomerang,
            Item::Feather,
            Item::Bracelet,
            Item::Boots,
            Item::Flippers,
        ]
    }

    /// The number this item is stored as.
    pub fn to_u8(self) -> (r: u8)
        ensures
            r == item_code(self),
    {
        match self {
            Item::Nothing => 0,
            Item::Sword => 1,
            Item::Shield => 2,
            Item::Bombs => 3,
            Item::Bow => 4,
            Item::Boomerang => 5,
            Item::Feather => 6,
            Item::Bracelet => 7,
            Item::Boots => 8,
            Item::Flippers => 9,
        }
    }

    /// Reads an item back from its number; unknown numbers are no item.
    pub fn from_u8(v: u8) -> (r: Item)
        ensures
            1 <= v <= 9 ==> item_code(r) == v,
            !(1 <= v <= 9) ==> r == Item::Nothing,
    {
        match v {
            1 => Item::Sword,
            2 => Item::Shield,
            3 => Item::Bombs,
            4 => Item::Bow,
            5 => Item::Boomerang,
            6 => Item::Feather,
            7 => Item::Bracelet,
            8 => Item::Boots,
            9 => Item::Flippers,
            _ => Item::Nothing,
        }
    }

    /// Short name for the status bar and menus.
    pub fn name(self) -> (r: &'static str)
        ensures
            self == Item::Nothing ==> r@ == ""@,
            self == Item::Sword ==> r@ == "SWORD"@,
            self == Item::Shield ==> r@ == "SHIELD"@,
            self == Item::Bombs ==> r@ == "BOMBS"@,
            self == Item::Bow ==> r@ == "BOW"@,
            self == Item::Boomerang ==> r@ == "BOOMERANG"@,
            self == Item::Feather ==> r@ == "FEATHER"@,
            self == Item::Bracelet ==> r@ == "BRACELET"@,
            self == Item::Boots ==> r@ == "BOOTS"@,
            self == Item::Flippers ==> r@ == "FLIPPERS"@,
    {
        match self {
            Item::Nothing => "",
            Item::Sword => "SWORD",
            Item::Shield => "SHIELD",
            Item::Bombs => "BOMBS",
            Item::Bow => "BOW",
            Item::Boomerang => "BOOMERANG",
            Item::Feather => "FEATHER",
            Item::Bracelet => "BRACELET",
            Item::Boots => "BOOTS",
            Item::Flippers => "FLIPPERS",
        }
    }

    /// True for items that are simply carried and always in effect.
    pub fn is_passive(self) -> (r: bool)
        ensures
            r == is_passive_spec(self),
    {
        match self {
            Item::Bracelet | Item::Flippers => true,
            _ => false,
        }
    }

    /// How much ammunition using this item costs.
    pub fn ammo_cost(self) -> (r: u8)
        ensures
            r == (if self == Item::Bombs || self == Item::Bow { 1u8 } else { 0u8 }),
    {
        match self {
            Item::Bombs | Item::Bow => 1,
            _ => 0,
        }
    }
}

/// The owned-mask bit for an item.
pub open spec fn item_bit(i: Item) -> u32 {
    (1u32 << item_code(i) as u32) as u32
}

/// True when a mask says an item is owned.
pub open spec fn owns(bits: u32, i: Item) -> bool {
    i != Item::Nothing && bits & item_bit(i) != 0
}

/// The active items a mask owns, in code order.
pub open spec fn usable_items(bits: u32) -> Seq<Item> {
    all_items().filter(|i: Item| owns(bits, i) && !is_passive_spec(i))
}

/// Index of the first `x` in `s` at or after `from`.
pub open spec fn find_from(s: Seq<Item>, x: Item, from: int) -> Option<int>
    decreases s.len() - from,
{
    if from < 0 || from >= s.len() {
        None
    } else if s[from] == x {
        Some(from)
    } else {
        find_from(s, x, from + 1)
    }
}

/// Where cycling starts looking: just after the current item, or at the front.
pub open spec fn cycle_start(s: Seq<Item>, cur: Item) -> int {
    match find_from(s, cur, 0) {
        Some(p) => p + 1,
        None => 0,
    }
}

/// The first item, going round from `start + n`, that is not `other`.
pub open spec fn next_other(s: Seq<Item>, start: int, other: Item, n: int) -> Option<Item>
    decreases s.len() - n,
{
    if n < 0 || n >= s.len() {
        None
    } else if s[(start + n) % (s.len() as int)] != other {
        Some(s[(start + n) % (s.len() as int)])
    } else {
        next_other(s, start, other, n + 1)
    }
}

/// Everything a player is carrying.
#[derive(Clone, Copy, Debug)]
pub struct Inventory {
    /// Bit per [`Item`] code.
    pub owned: u32,
    /// Items bound to the A and B buttons.
    pub equipped: [Item; 2],
    pub bombs: u8,
    pub max_bombs: u8,
    pub arrows: u8,
    pub max_arrows: u8,
    pub keys: u8,
    pub rupees: u16,
    /// Sword upgrade level, 1 or 2.
    pub sword_level: u8,
    /// Heart containers collected, in quarter-heart pieces.
    pub heart_pieces: u8,
}

impl Inventory {
    /// The owned-items mask.
    pub open spec fn bits(&self) -> u32 {
        self.owned
    }

    /// Everything but the owned mask and the equipped buttons is the same.
    pub open spec fn same_counts(&self, o: &Inventory) -> bool {
        &&& self.bombs == o.bombs
        &&& self.max_bombs == o.max_bombs
        &&& self.arrows == o.arrows
        &&& self.max_arrows == o.max_arrows
        &&& self.keys == o.keys
        &&& self.rupees == o.rupees
        &&& self.sword_level == o.sword_level
        &&& self.heart_pieces == o.heart_pieces
    }

    /// A fresh inventory: a sword in hand and nothing else.
    pub fn new_default() -> (r: Inventory)
        ensures
            r.bits() == item_bit(Item::Sword),
            r.equipped@ == seq![Item::Sword, Item::Nothing],
            r.bombs == 0 && r.max_bombs == 30 && r.arrows == 0 && r.max_arrows == 30,
            r.keys == 0 && r.rupees == 0 && r.sword_level == 1 && r.heart_pieces == 0,
    {
        let mut inv = Inventory {
            owned: 0,
            equipped: [Item::Sword, Item::Nothing],
            bombs: 0,
            max_bombs: 30,
            arrows: 0,
            max_arrows: 30,
            keys: 0,
            rupees: 0,
            sword_level: 1,
            heart_pieces: 0,
        };
        inv.give(Item::Sword);
        assert((0u32 | (1u32 << 1u32)) == (1u32 << 1u32)) by (bit_vector);
        inv
    }

    /// The raw owned-items bitmask, for snapshots.
    pub fn owned_bits(&self) -> (r: u32)
        ensures
            r == self.bits(),
    {
        self.owned
    }

    /// Restores the owned-items bitmask from a snapshot.
    pub fn set_owned_bits(&mut self, bits: u32)
        ensures
            final(self).bits() == bits,
            final(self).equipped == old(self).equipped,
            final(self).same_counts(old(self)),
    {
        self.owned = bits;
    }

    /// Grants an item. A newly found active item goes straight to the free
    /// button so it can be used without opening a menu.
    pub fn give(&mut self, item: Item)
        ensures
            item == Item::Nothing ==> final(self).bits() == old(self).bits(),
            item != Item::Nothing ==> final(self).bits() == old(self).bits() | item_bit(item),
            final(self).equipped[0] == old(self).equipped[0],
            final(self).equipped[1] == (if item != Item::Nothing && !is_passive_spec(item)
                && old(self).equipped[1] == Item::Nothing && item != old(self).equipped[0] {
                item
            } else {
                old(self).equipped[1]
            }),
            final(self).same_counts(old(self)),
    {
        if item != Item::Nothing {
            let code: u32 = item.to_u8() as u32;
            self.owned = self.owned | (1u32 << code);
            if !item.is_passive() && self.equipped[1] == Item::Nothing && item != self.equipped[0] {
                self.equipped[1] = item;
            }
        }
    }

    /// True when the player owns the item.
    pub fn has(&self, item: Item) -> (r: bool)
        ensures
            r == owns(self.bits(), item),
    {
        if item == Item::Nothing {
            return false;
        }
        let code: u32 = item.to_u8() as u32;
        self.owned & (1u32 << code) != 0
    }

    /// Owned items in code order.
    pub fn owned_items(&self) -> (r: Vec<Item>)
        ensures
            r@ == all_items().filter(|i: Item| owns(self.bits(), i)),
    {
        let all = Item::all();
        let mut out: Vec<Item> = Vec::new();
        let mut k: usize = 0;
        let ghost pred = |i: Item| owns(self.bits(), i);
        while k < 9
            invariant
                k <= 9,
                all@ == all_items(),
                pred == (|i: Item| owns(self.bits(), i)),
                out@ == all_items().take(k as int).filter(pred),
            decreases 9 - k,
        {
            proof {
                assert(all_items().take(k + 1).drop_last() == all_items().take(k as int));
                reveal_with_fuel(Seq::filter, 1);
            }
            if self.has(all[k]) {
                out.push(all[k]);
            }
            k += 1;
        }
        assert(all_items().take(9) == all_items());
        out
    }

    /// True when the item can be used right now, i.e. owned and with ammo.
    pub fn can_use(&self, item: Item) -> (r: bool)
        ensures
            r == (owns(self.bits(), item) && (item == Item::Bombs ==> self.bombs > 0) && (item
                == Item::Bow ==> self.arrows > 0)),
    {
        if !self.has(item) {
            return false;
        }
        match item {
            Item::Bombs => self.bombs > 0,
            Item::Bow => self.arrows > 0,
            _ => true,
        }
    }

    /// Spends one unit of ammunition. Returns false if there was none.
    pub fn spend(&mut self, item: Item) -> (r: bool)
        ensures
            item == Item::Bombs ==> r == (old(self).bombs > 0) && final(self).bombs == (if r {
                old(self).bombs - 1
            } else {
                old(self).bombs as int
            }) && final(self).arrows == old(self).arrows,
            item == Item::Bow ==> r == (old(self).arrows > 0) && final(self).arrows == (if r {
                old(self).arrows - 1
            } else {
                old(self).arrows as int
            }) && final(self).bombs == old(self).bombs,
            item != Item::Bombs && item != Item::Bow ==> r && final(self).bombs == old(
                self,
            ).bombs && final(self).arrows == old(self).arrows,
            final(self).bits() == old(self).bits(),
            final(self).equipped == old(self).equipped,
            final(self).keys == old(self).keys,
            final(self).rupees == old(self).rupees,
            final(self).max_bombs == old(self).max_bombs,
            final(self).max_arrows == old(self).max_arrows,
            final(self).sword_level == old(self).sword_level,
            final(self).heart_pieces == old(self).heart_pieces,
    {
        match item {
            Item::Bombs => {
                if self.bombs > 0 {
                    self.bombs -= 1;
                    true
                } else {
                    false
                }
            },
            Item::Bow => {
                if self.arrows > 0 {
                    self.arrows -= 1;
                    true
                } else {
                    false
                }
            },
            _ => true,
        }
    }

    /// Adds bombs, up to the bag's capacity.
    pub fn add_bombs(&mut self, n: u8)
        ensures
            final(self).bombs == capped(old(self).bombs as int + n, 255, old(self).max_bombs as int),
            final(self).arrows == old(self).arrows,
            final(self).max_bombs == old(self).max_bombs,
            final(self).max_arrows == old(self).max_arrows,
            final(self).keys == old(self).keys,
            final(self).rupees == old(self).rupees,
            final(self).bits() == old(self).bits(),
            final(self).equipped == old(self).equipped,
            final(self).sword_level == old(self).sword_level,
            final(self).heart_pieces == old(self).heart_pieces,
    {
        let s: u8 = self.bombs.saturating_add(n);
        self.bombs = if s < self.max_bombs { s } else { self.max_bombs };
    }

    /// Adds arrows, up to the quiver's capacity.
    pub fn add_arrows(&mut self, n: u8)
        ensures
            final(self).arrows == capped(old(self).arrows as int + n, 255, old(self).max_arrows as int),
            final(self).bombs == old(self).bombs,
            final(self).max_bombs == old(self).max_bombs,
            final(self).max_arrows == old(self).max_arrows,
            final(self).keys == old(self).keys,
            final(self).rupees == old(self).rupees,
            final(self).bits() == old(self).bits(),
            final(self).equipped == old(self).equipped,
            final(self).sword_level == old(self).sword_level,
            final(self).heart_pieces == old(self).heart_pieces,
    {
        let s: u8 = self.arrows.saturating_add(n);
        self.arrows = if s < self.max_arrows { s } else { self.max_arrows };
    }

    /// Adds rupees; the wallet holds at most 999.
    pub fn add_rupees(&mut self, n: u16)
        ensures
            final(self).rupees == capped(old(self).rupees as int + n, 65535, 999),
            final(self).bombs == old(self).bombs,
            final(self).arrows == old(self).arrows,
            final(self).max_bombs == old(self).max_bombs,
            final(self).max_arrows == old(self).max_arrows,
            final(self).keys == old(self).keys,
            final(self).bits() == old(self).bits(),
            final(self).equipped == old(self).equipped,
            final(self).sword_level == old(self).sword_level,
            final(self).heart_pieces == old(self).heart_pieces,
    {
        let s: u16 = self.rupees.saturating_add(n);
        self.rupees = if s < 999 { s } else { 999 };
    }

    /// Spends a small key, returning false when the player has none.
    pub fn use_key(&mut self) -> (r: bool)
        ensures
            r == (old(self).keys > 0),
            final(self).keys == (if r { old(self).keys - 1 } else { old(self).keys as int }),
            final(self).bombs == old(self).bombs,
            final(self).arrows == old(self).arrows,
            final(self).rupees == old(self).rupees,
            final(self).bits() == old(self).bits(),
            final(self).equipped == old(self).equipped,
    {
        if self.keys > 0 {
            self.keys -= 1;
            true
        } else {
            false
        }
    }

    /// Swaps the A and B assignments.
    pub fn swap_equipped(&mut self)
        ensures
            final(self).equipped[0] == old(self).equipped[1],
            final(self).equipped[1] == old(self).equipped[0],
            final(self).bits() == old(self).bits(),
            final(self).same_counts(old(self)),
    {
        let a = self.equipped[0];
        let b = self.equipped[1];
        self.equipped[0] = b;
        self.equipped[1] = a;
    }

    /// The owned active items, in code order.
    fn usable(&self) -> (r: Vec<Item>)
        ensures
            r@ == usable_items(self.bits()),
    {
        let all = Item::all();
        let mut out: Vec<Item> = Vec::new();
        let mut k: usize = 0;
        let ghost pred = |i: Item| owns(self.bits(), i) && !is_passive_spec(i);
        while k < 9
            invariant
                k <= 9,
                all@ == all_items(),
                pred == (|i: Item| owns(self.bits(), i) && !is_passive_spec(i)),
                out@ == all_items().take(k as int).filter(pred),
            decreases 9 - k,
        {
            proof {
                assert(all_items().take(k + 1).drop_last() == all_items().take(k as int));
                reveal_with_fuel(Seq::filter, 1);
            }
            if self.has(all[k]) && !all[k].is_passive() {
                out.push(all[k]);
            }
            k += 1;
        }
        assert(all_items().take(9) == all_items());
        out
    }

    /// Cycles the given button through the owned active items, never landing
    /// on the item held by the other button.
    pub fn cycle_equipped(&mut self, slot: usize)
        ensures
            ({
                let s = (slot % 2) as int;
                let u = usable_items(old(self).bits());
                let pick = next_other(
                    u,
                    cycle_start(u, old(self).equipped[s]),
                    old(self).equipped[1 - s],
                    0,
                );
                &&& final(self).equipped[1 - s] == old(self).equipped[1 - s]
                &&& final(self).equipped[s] == (match pick {
                    Some(c) => c,
                    None => old(self).equipped[s],
                })
            }),
            final(self).bits() == old(self).bits(),
            final(self).same_counts(old(self)),
    {
        let usable = self.usable();
        if usable.len() == 0 {
            return;
        }
        let s: usize = slot & 1;
        assert(s == slot % 2) by (bit_vector)
            requires
                s == slot & 1,
        ;
        let other: usize = 1 - s;
        let cur = self.equipped[s];
        proof {
            all_items().lemma_filter_len(|i: Item| owns(self.bits(), i) && !is_passive_spec(i));
        }
        let ghost u = usable@;
        let mut p: usize = 0;
        while p < usable.len() && usable[p] != cur
            invariant
                p <= usable.len(),
                u == usable@,
                find_from(u, cur, 0) == find_from(u, cur, p as int),
            decreases usable.len() - p,
        {
            p += 1;
        }
        let start: usize = if p < usable.len() { p + 1 } else { 0 };
        assert(start == cycle_start(u, cur));
        let len = usable.len();
        proof {
            all_items().lemma_filter_len(|i: Item| owns(self.bits(), i) && !is_passive_spec(i));
        }
        assert(len <= 9);
        let mut n: usize = 0;
        while n < len
            invariant
                n <= len,
                len == u.len(),
                len <= 9,
                0 < len,
                u == usable@,
                u == usable_items(old(self).bits()),
                start == cycle_start(u, old(self).equipped[s as int]),
                start <= len,
                s < 2,
                s == slot % 2,
                other == 1 - s,
                self.equipped == old(self).equipped,
                self.bits() == old(self).bits(),
                self.same_counts(old(self)),
                next_other(u, start as int, old(self).equipped[other as int], 0) == next_other(
                    u,
                    start as int,
                    old(self).equipped[other as int],
                    n as int,
                ),
            decreases len - n,
        {
            let idx: usize = (start + n) % len;
            let cand = usable[idx];
            if cand != self.equipped[other] {
                assert(next_other(u, start as int, old(self).equipped[other as int], n as int)
                    == Some(cand));
                self.equipped[s] = cand;
                assert(other == 1 - s);
                return;
            }
            n += 1;
        }
    }
}

impl Default for Inventory {
    fn default() -> (r: Inventory)
        ensures
            r.bits() == item_bit(Item::Sword),
            r.equipped@ == seq![Item::Sword, Item::Nothing],
            r.bombs == 0 && r.max_bombs == 30 && r.arrows == 0 && r.max_arrows == 30,
            r.keys == 0 && r.rupees == 0 && r.sword_level == 1 && r.heart_pieces == 0,
    {
        Inventory::new_default()
    }
}

/// `min(min(v, ceiling), limit)`: a saturating add followed by a cap.
pub open spec fn capped(v: int, ceiling: int, limit: int) -> int {
    let s = if v < ceiling { v } else { ceiling };
    if s < limit { s } else { limit }
}

/// Once given, an item is owned.
pub proof fn lemma_give_then_has(bits: u32, i: Item)
    requires
        i != Item::Nothing,
    ensures
        owns(bits | item_bit(i), i),
{
    let k = item_code(i) as u32;
    assert(1 <= k <= 9);
    assert(((bits | (1u32 << k)) & (1u32 << k)) != 0) by (bit_vector)
        requires
            1 <= k <= 9,
    ;
}

/// Giving an item takes nothing else away.
pub proof fn lemma_give_keeps_others(bits: u32, i: Item, j: Item)
    requires
        owns(bits, j),
    ensures
        owns(bits | item_bit(i), j),
{
    let k = item_code(i) as u32;
    let m = item_code(j) as u32;
    assert(k <= 9 && m <= 9);
    assert((bits & (1u32 << m)) != 0 ==> ((bits | (1u32 << k)) & (1u32 << m)) != 0) by (bit_vector)
        requires
            k <= 9,
            m <= 9,
    ;
}

/// Cycling a button never leaves both buttons holding the same item, if they
/// differed before.
pub proof fn lemma_cycle_keeps_buttons_apart(u: Seq<Item>, start: int, other: Item, cur: Item, n: int)
    requires
        cur != other,
    ensures
        (match next_other(u, start, other, n) {
            Some(c) => c,
            None => cur,
        }) != other,
    decreases u.len() - n,
{
    if n < 0 || n >= u.len() {
    } else if u[(start + n) % (u.len() as int)] != other {
    } else {
        lemma_cycle_keeps_buttons_apart(u, start, other, cur, n + 1);
    }
}

} // verus!
