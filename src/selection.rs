//! One-shot menus: each offered choice gets a fresh token; resolving any token
//! of a menu hands back its choice and retires every token of that menu.
use vstd::prelude::*;
use crate::ledger::{Transaction, text_opt};

verus! {

broadcast use vstd::seq_lib::group_seq_lib_default;

/// A pending choice, kept until it is picked or swept.
pub struct CategoryCallback {
    pub category: String,
    /// Pending amount in minor units.
    pub amount: i64,
    pub note: String,
    /// Shared by every choice offered together in one menu.
    pub menu_id: u128,
    /// Monotonic clock reading, in milliseconds, when the menu was opened.
    pub created_at: u64,
}

impl CategoryCallback {
    /// The transaction recorded for this choice, entered at `date` by
    /// `username`, or by `unknown` when the author has no user name.
    pub fn into_transaction(self, username: Option<String>, date: String) -> (r: Transaction)
        ensures
            r.date@ == date@,
            r.amount == self.amount,
            r.category@ == self.category@,
            r.username@ == match username {
                Some(u) => u@,
                None => "unknown"@,
            },
            text_opt(r.note) == Some(self.note@),
    {
        let username = match username {
            Some(u) => u,
            None => String::from_str("unknown"),
        };
        Transaction {
            date,
            amount: self.amount,
            category: self.category,
            username,
            note: Some(self.note),
        }
    }
}

/// One button of an opened menu: the token to send back and its label.
pub struct MenuOption {
    pub token: u128,
    pub label: String,
}

/// Why a menu could not be opened.
#[derive(Debug, Clone, Copy, PartialEq, Eq, Structural)]
pub enum MenuError {
    /// A token or the menu id is already in use.
    IdCollision,
    /// There is not exactly one token per category.
    TokenCountMismatch,
}

/// A cache slot: token and pending choice.
pub type Slot = (u128, CategoryCallback);

pub open spec fn has_token(s: Seq<Slot>, t: u128) -> bool {
    exists|i: int| 0 <= i < s.len() && #[trigger] s[i].0 == t
}

pub open spec fn tokens_unique(s: Seq<Slot>) -> bool {
    forall|i: int, j: int| 0 <= i < s.len() && 0 <= j < s.len() && i != j ==> s[i].0 != s[j].0
}

pub open spec fn slot_index(s: Seq<Slot>, t: u128) -> int {
    choose|i: int| 0 <= i < s.len() && #[trigger] s[i].0 == t
}

/// The choice held under token `t`.
pub open spec fn entry_of(s: Seq<Slot>, t: u128) -> CategoryCallback {
    s[slot_index(s, t)].1
}

pub open spec fn menu_unused(s: Seq<Slot>, m: u128) -> bool {
    forall|i: int| 0 <= i < s.len() ==> #[trigger] s[i].1.menu_id != m
}

pub open spec fn outside_menu(m: u128) -> spec_fn(Slot) -> bool {
    |e: Slot| e.1.menu_id != m
}

/// The cache after resolving `t`: unchanged if `t` is absent, else without
/// every slot of `t`'s menu.
pub open spec fn after_resolve(s: Seq<Slot>, t: u128) -> Seq<Slot> {
    if has_token(s, t) {
        s.filter(outside_menu(entry_of(s, t).menu_id))
    } else {
        s
    }
}

/// Age of a choice at `now`; a reading before `created_at` counts as age zero.
pub open spec fn age(e: CategoryCallback, now: u64) -> int {
    if now >= e.created_at {
        now - e.created_at
    } else {
        0
    }
}

pub open spec fn still_fresh(now: u64, ttl: u64) -> spec_fn(Slot) -> bool {
    |e: Slot| age(e.1, now) < ttl
}

/// The cache after a sweep: only the slots younger than `ttl` stay.
pub open spec fn after_sweep(s: Seq<Slot>, now: u64, ttl: u64) -> Seq<Slot> {
    s.filter(still_fresh(now, ttl))
}

pub open spec fn tokens_fresh(s: Seq<Slot>, ts: Seq<u128>) -> bool {
    &&& forall|i: int, j: int| 0 <= i < ts.len() && 0 <= j < ts.len() && i != j ==> ts[i] != ts[j]
    &&& forall|i: int| 0 <= i < ts.len() ==> !has_token(s, #[trigger] ts[i])
}

/// `fresh` is the menu opened with these tokens, id, labels and values.
pub open spec fn is_menu(
    fresh: Seq<Slot>,
    tokens: Seq<u128>,
    menu_id: u128,
    labels: Seq<Seq<char>>,
    amount: i64,
    note: Seq<char>,
    now: u64,
) -> bool {
    &&& fresh.len() == tokens.len()
    &&& fresh.len() == labels.len()
    &&& forall|i: int|
        0 <= i < fresh.len() ==> {
            &&& (#[trigger] fresh[i]).0 == tokens[i]
            &&& fresh[i].1.category@ == labels[i]
            &&& fresh[i].1.amount == amount
            &&& fresh[i].1.note@ == note
            &&& fresh[i].1.menu_id == menu_id
            &&& fresh[i].1.created_at == now
        }
}

pub open spec fn labels_of(categories: Seq<String>) -> Seq<Seq<char>> {
    categories.map_values(|c: String| c@)
}

pub open spec fn tokens_of(opts: Seq<MenuOption>) -> Seq<u128> {
    opts.map_values(|o: MenuOption| o.token)
}

/// Relies on `uuid::Uuid::new_v4`: a random version-4 UUID, taken as its
/// 128-bit value. Nothing is promised of the value.
#[verifier::external_body]
fn random_id() -> (r: u128) {
    uuid::Uuid::new_v4().as_u128()
}

/// The pending menu choices, keyed by token.
pub struct SelectionCache {
    entries: Vec<Slot>,
}

impl View for SelectionCache {
    type V = Seq<Slot>;

    closed spec fn view(&self) -> Seq<Slot> {
        self.entries@
    }
}

proof fn lemma_filter_prefix_step<A>(s: Seq<A>, j: int, keep: spec_fn(A) -> bool)
    requires
        0 <= j < s.len(),
    ensures
        s.subrange(0, j + 1).filter(keep) == if keep(s[j]) {
            s.subrange(0, j).filter(keep).push(s[j])
        } else {
            s.subrange(0, j).filter(keep)
        },
{
    reveal(Seq::filter);
    let p = s.subrange(0, j + 1);
    assert(p.drop_last() =~= s.subrange(0, j));
}

proof fn lemma_remove_keeps_unique(s: Seq<Slot>, k: int)
    requires
        tokens_unique(s),
        0 <= k < s.len(),
    ensures
        tokens_unique(s.remove(k)),
{
    let r = s.remove(k);
    assert forall|i: int, j: int| 0 <= i < r.len() && 0 <= j < r.len() && i != j implies r[i].0
        != r[j].0 by {
        let i2 = if i < k {
            i
        } else {
            i + 1
        };
        let j2 = if j < k {
            j
        } else {
            j + 1
        };
        assert(r[i] == s[i2]);
        assert(r[j] == s[j2]);
    }
}

proof fn lemma_slot_index(s: Seq<Slot>, i: int)
    requires
        tokens_unique(s),
        0 <= i < s.len(),
    ensures
        has_token(s, s[i].0),
        slot_index(s, s[i].0) == i,
        entry_of(s, s[i].0) == s[i].1,
{
    assert(has_token(s, s[i].0));
    let k = slot_index(s, s[i].0);
    assert(s[k].0 == s[i].0);
}

proof fn lemma_filter_all<A>(s: Seq<A>, keep: spec_fn(A) -> bool)
    requires
        forall|i: int| 0 <= i < s.len() ==> keep(#[trigger] s[i]),
    ensures
        s.filter(keep) == s,
    decreases s.len(),
{
    reveal(Seq::filter);
    if s.len() > 0 {
        lemma_filter_all(s.drop_last(), keep);
        assert(s.drop_last().push(s.last()) =~= s);
    }
}

proof fn lemma_filter_none<A>(s: Seq<A>, keep: spec_fn(A) -> bool)
    requires
        forall|i: int| 0 <= i < s.len() ==> !keep(#[trigger] s[i]),
    ensures
        s.filter(keep) == Seq::<A>::empty(),
    decreases s.len(),
{
    reveal(Seq::filter);
    if s.len() > 0 {
        lemma_filter_none(s.drop_last(), keep);
    } else {
        assert(s =~= Seq::<A>::empty());
    }
}

/// Opening a menu on a cache whose tokens are unique keeps them unique.
proof fn lemma_menu_keeps_unique(
    s: Seq<Slot>,
    fresh: Seq<Slot>,
    tokens: Seq<u128>,
    menu_id: u128,
    labels: Seq<Seq<char>>,
    amount: i64,
    note: Seq<char>,
    now: u64,
)
    requires
        tokens_unique(s),
        tokens_fresh(s, tokens),
        is_menu(fresh, tokens, menu_id, labels, amount, note, now),
    ensures
        tokens_unique(s + fresh),
{
    let c = s + fresh;
    assert forall|a: int, b: int| 0 <= a < c.len() && 0 <= b < c.len() && a != b implies c[a].0
        != c[b].0 by {
        if a >= s.len() {
            assert(c[a] == fresh[a - s.len()]);
        }
        if b >= s.len() {
            assert(c[b] == fresh[b - s.len()]);
        }
        if a < s.len() && b >= s.len() {
            assert(!has_token(s, tokens[b - s.len()]));
            assert(c[a] == s[a]);
        }
        if b < s.len() && a >= s.len() {
            assert(!has_token(s, tokens[a - s.len()]));
            assert(c[b] == s[b]);
        }
    }
}

/// A menu opened on a cache can be resolved once: resolving any one of its
/// tokens yields exactly that token's choice and leaves the cache as it was
/// before the menu was opened, so no token of the menu resolves again.
pub proof fn lemma_menu_resolves_once(
    s: Seq<Slot>,
    fresh: Seq<Slot>,
    tokens: Seq<u128>,
    menu_id: u128,
    labels: Seq<Seq<char>>,
    amount: i64,
    note: Seq<char>,
    now: u64,
    k: int,
)
    requires
        tokens_unique(s),
        tokens_fresh(s, tokens),
        menu_unused(s, menu_id),
        is_menu(fresh, tokens, menu_id, labels, amount, note, now),
        0 <= k < tokens.len(),
    ensures
        has_token(s + fresh, tokens[k]),
        entry_of(s + fresh, tokens[k]) == fresh[k].1,
        entry_of(s + fresh, tokens[k]).category@ == labels[k],
        after_resolve(s + fresh, tokens[k]) == s,
        forall|j: int|
            0 <= j < tokens.len() ==> !has_token(
                after_resolve(s + fresh, tokens[k]),
                #[trigger] tokens[j],
            ),
{
    let c = s + fresh;
    lemma_menu_keeps_unique(s, fresh, tokens, menu_id, labels, amount, note, now);
    assert(c[s.len() + k] == fresh[k]);
    lemma_slot_index(c, s.len() + k);
    assert(fresh[k].1.menu_id == menu_id);
    lemma_filter_all(s, outside_menu(menu_id));
    assert forall|i: int| 0 <= i < fresh.len() implies !outside_menu(menu_id)(
        #[trigger] fresh[i],
    ) by {
        assert(fresh[i].1.menu_id == menu_id);
    }
    lemma_filter_none(fresh, outside_menu(menu_id));
    assert(c.filter(outside_menu(menu_id)) == s.filter(outside_menu(menu_id)) + fresh.filter(
        outside_menu(menu_id),
    ));
    assert(s + Seq::<Slot>::empty() =~= s);
    assert forall|j: int| 0 <= j < tokens.len() implies !has_token(s, #[trigger] tokens[j]) by {}
}

/// After a sweep at `now`, a token whose choice had reached age `ttl` is no
/// longer pending, so resolving it finds nothing and changes nothing.
pub proof fn lemma_swept_token_expired(s: Seq<Slot>, now: u64, ttl: u64, t: u128)
    requires
        tokens_unique(s),
        has_token(s, t),
        age(entry_of(s, t), now) >= ttl,
    ensures
        !has_token(after_sweep(s, now, ttl), t),
        after_resolve(after_sweep(s, now, ttl), t) == after_sweep(s, now, ttl),
{
    let f = after_sweep(s, now, ttl);
    if has_token(f, t) {
        let i = choose|i: int| 0 <= i < f.len() && #[trigger] f[i].0 == t;
        assert(still_fresh(now, ttl)(f[i]));
        assert(f.contains(f[i]));
        s.lemma_filter_contains_rev(still_fresh(now, ttl), f[i]);
        let j = choose|j: int| 0 <= j < s.len() && s[j] == f[i];
        lemma_slot_index(s, j);
    }
}

impl SelectionCache {
    /// Every token names at most one slot.
    pub open spec fn wf(&self) -> bool {
        tokens_unique(self@)
    }

    pub fn new() -> (r: SelectionCache)
        ensures
            r.wf(),
            r@ == Seq::<Slot>::empty(),
    {
        SelectionCache { entries: Vec::new() }
    }

    /// Number of pending choices.
    pub fn len(&self) -> (r: usize)
        ensures
            r == self@.len(),
    {
        self.entries.len()
    }

    /// Whether a choice is pending under `token`.
    pub fn contains(&self, token: u128) -> (r: bool)
        ensures
            r == has_token(self@, token),
    {
        let mut i: usize = 0;
        while i < self.entries.len()
            invariant
                i <= self.entries@.len(),
                forall|k: int| 0 <= k < i ==> self.entries@[k].0 != token,
            decreases self.entries@.len() - i,
        {
            if self.entries[i].0 == token {
                return true;
            }
            i = i + 1;
        }
        false
    }

    /// Whether some pending choice belongs to menu `menu_id`.
    fn menu_in_use(&self, menu_id: u128) -> (r: bool)
        ensures
            r == !menu_unused(self@, menu_id),
    {
        let mut i: usize = 0;
        while i < self.entries.len()
            invariant
                i <= self.entries@.len(),
                forall|k: int| 0 <= k < i ==> #[trigger] self.entries@[k].1.menu_id != menu_id,
            decreases self.entries@.len() - i,
        {
            if self.entries[i].1.menu_id == menu_id {
                return true;
            }
            i = i + 1;
        }
        false
    }

    /// Whether the given tokens are pairwise distinct and none is pending.
    fn tokens_are_fresh(&self, tokens: &Vec<u128>) -> (r: bool)
        ensures
            r == tokens_fresh(self@, tokens@),
    {
        let n = tokens.len();
        let mut i: usize = 0;
        while i < n
            invariant
                n == tokens@.len(),
                i <= n,
                forall|a: int, b: int| 0 <= a < i && 0 <= b < n && a != b ==> tokens@[a] != tokens@[b],
                forall|a: int| 0 <= a < i ==> !has_token(self@, #[trigger] tokens@[a]),
            decreases n - i,
        {
            if self.contains(tokens[i]) {
                return false;
            }
            let mut j: usize = 0;
            while j < n
                invariant
                    n == tokens@.len(),
                    i < n,
                    j <= n,
                    forall|b: int| 0 <= b < j && b != i ==> tokens@[i as int] != tokens@[b],
                decreases n - j,
            {
                if j != i && tokens[j] == tokens[i] {
                    return false;
                }
                j = j + 1;
            }
            i = i + 1;
        }
        true
    }

    /// Opens a menu with the given tokens and menu id: one choice per
    /// category, all with the same amount, note and opening time. Fails,
    /// changing nothing, when a token repeats or is pending, or the menu id
    /// is in use.
    pub fn open_menu_with(
        &mut self,
        tokens: &Vec<u128>,
        menu_id: u128,
        categories: &Vec<String>,
        amount: i64,
        note: &String,
        now: u64,
    ) -> (r: Result<Vec<MenuOption>, MenuError>)
        requires
            old(self).wf(),
        ensures
            final(self).wf(),
            match r {
                Ok(opts) => {
                    &&& tokens@.len() == categories@.len()
                    &&& tokens_fresh(old(self)@, tokens@)
                    &&& menu_unused(old(self)@, menu_id)
                    &&& final(self)@.len() == old(self)@.len() + tokens@.len()
                    &&& final(self)@.subrange(0, old(self)@.len() as int) == old(self)@
                    &&& is_menu(
                        final(self)@.subrange(old(self)@.len() as int, final(self)@.len() as int),
                        tokens@,
                        menu_id,
                        labels_of(categories@),
                        amount,
                        note@,
                        now,
                    )
                    &&& opts@.len() == tokens@.len()
                    &&& forall|i: int|
                        0 <= i < opts@.len() ==> (#[trigger] opts@[i]).token == tokens@[i]
                            && opts@[i].label@ == categories@[i]@
                },
                Err(e) => {
                    &&& final(self)@ == old(self)@
                    &&& if tokens@.len() != categories@.len() {
                        e == MenuError::TokenCountMismatch
                    } else {
                        &&& e == MenuError::IdCollision
                        &&& !(tokens_fresh(old(self)@, tokens@) && menu_unused(old(self)@, menu_id))
                    }
                },
            },
    {
        if tokens.len() != categories.len() {
            return Err(MenuError::TokenCountMismatch);
        }
        if !self.tokens_are_fresh(tokens) || self.menu_in_use(menu_id) {
            return Err(MenuError::IdCollision);
        }
        let ghost s = self.entries@;
        let n = tokens.len();
        let mut opts: Vec<MenuOption> = Vec::new();
        let mut i: usize = 0;
        while i < n
            invariant
                n == tokens@.len(),
                n == categories@.len(),
                i <= n,
                tokens_fresh(s, tokens@),
                menu_unused(s, menu_id),
                tokens_unique(s),
                self.entries@.len() == s.len() + i,
                self.entries@.subrange(0, s.len() as int) == s,
                is_menu(
                    self.entries@.subrange(s.len() as int, self.entries@.len() as int),
                    tokens@.subrange(0, i as int),
                    menu_id,
                    labels_of(categories@).subrange(0, i as int),
                    amount,
                    note@,
                    now,
                ),
                tokens_unique(self.entries@),
                opts@.len() == i,
                forall|k: int|
                    0 <= k < i ==> (#[trigger] opts@[k]).token == tokens@[k] && opts@[k].label@
                        == categories@[k]@,
            decreases n - i,
        {
            let ghost before = self.entries@;
            let slot = (
                tokens[i],
                CategoryCallback {
                    category: categories[i].clone(),
                    amount,
                    note: note.clone(),
                    menu_id,
                    created_at: now,
                },
            );
            self.entries.push(slot);
            opts.push(MenuOption { token: tokens[i], label: categories[i].clone() });
            proof {
                let e = self.entries@;
                assert(e.subrange(0, s.len() as int) =~= s);
                let fresh = e.subrange(s.len() as int, e.len() as int);
                assert(fresh.drop_last() =~= before.subrange(s.len() as int, before.len() as int));
                assert(tokens@.subrange(0, i + 1).drop_last() =~= tokens@.subrange(0, i as int));
                assert forall|a: int, b: int|
                    0 <= a < e.len() && 0 <= b < e.len() && a != b implies e[a].0 != e[b].0 by {
                    if a < s.len() && b == e.len() - 1 {
                        assert(!has_token(s, tokens@[i as int]));
                        assert(e[a] == s[a]);
                    } else if b < s.len() && a == e.len() - 1 {
                        assert(!has_token(s, tokens@[i as int]));
                        assert(e[b] == s[b]);
                    } else if a >= s.len() && b == e.len() - 1 {
                        let bf = before.subrange(s.len() as int, before.len() as int);
                        assert(e[a] == before[a]);
                        assert(before[a] == bf[a - s.len()]);
                        assert(bf[a - s.len()].0 == tokens@.subrange(0, i as int)[a - s.len()]);
                        assert(e[a].0 == tokens@[a - s.len()]);
                    } else if b >= s.len() && a == e.len() - 1 {
                        let bf = before.subrange(s.len() as int, before.len() as int);
                        assert(e[b] == before[b]);
                        assert(before[b] == bf[b - s.len()]);
                        assert(bf[b - s.len()].0 == tokens@.subrange(0, i as int)[b - s.len()]);
                        assert(e[b].0 == tokens@[b - s.len()]);
                    } else {
                        assert(e[a] == before[a]);
                        assert(e[b] == before[b]);
                    }
                }
                assert(is_menu(
                    fresh,
                    tokens@.subrange(0, i + 1),
                    menu_id,
                    labels_of(categories@).subrange(0, i + 1),
                    amount,
                    note@,
                    now,
                )) by {
                    let bf = before.subrange(s.len() as int, before.len() as int);
                    let ts = tokens@.subrange(0, i + 1);
                    let ls = labels_of(categories@).subrange(0, i + 1);
                    assert forall|k: int| 0 <= k < fresh.len() implies {
                        &&& (#[trigger] fresh[k]).0 == ts[k]
                        &&& fresh[k].1.category@ == ls[k]
                        &&& fresh[k].1.amount == amount
                        &&& fresh[k].1.note@ == note@
                        &&& fresh[k].1.menu_id == menu_id
                        &&& fresh[k].1.created_at == now
                    } by {
                        if k < i {
                            assert(fresh[k] == bf[k]);
                            assert(bf[k].0 == tokens@.subrange(0, i as int)[k]);
                            assert(bf[k].1.category@ == labels_of(categories@).subrange(0, i as int)[k]);
                        } else {
                            assert(fresh[k] == e[e.len() - 1]);
                        }
                    }
                }
            }
            i = i + 1;
        }
        proof {
            assert(tokens@.subrange(0, n as int) =~= tokens@);
            assert(labels_of(categories@).subrange(0, n as int) =~= labels_of(categories@));
        }
        Ok(opts)
    }

    /// Opens a menu of the given categories under fresh random tokens and a
    /// fresh random menu id. In the unlikely event that a drawn id is already
    /// in use, nothing changes and `IdCollision` is returned; on an empty
    /// cache a menu of at most one category always opens.
    pub fn open_menu(&mut self, categories: &Vec<String>, amount: i64, note: &String, now: u64) -> (r:
        Result<Vec<MenuOption>, MenuError>)
        requires
            old(self).wf(),
        ensures
            final(self).wf(),
            old(self)@.len() == 0 && categories@.len() <= 1 ==> r is Ok,
            match r {
                Ok(opts) => {
                    &&& tokens_fresh(old(self)@, tokens_of(opts@))
                    &&& final(self)@.len() == old(self)@.len() + categories@.len()
                    &&& final(self)@.subrange(0, old(self)@.len() as int) == old(self)@
                    &&& exists|menu_id: u128|
                        menu_unused(old(self)@, menu_id) && #[trigger] is_menu(
                            final(self)@.subrange(
                                old(self)@.len() as int,
                                final(self)@.len() as int,
                            ),
                            tokens_of(opts@),
                            menu_id,
                            labels_of(categories@),
                            amount,
                            note@,
                            now,
                        )
                    &&& opts@.len() == categories@.len()
                    &&& forall|i: int|
                        0 <= i < opts@.len() ==> (#[trigger] opts@[i]).label@ == categories@[i]@
                },
                Err(e) => {
                    &&& e == MenuError::IdCollision
                    &&& final(self)@ == old(self)@
                },
            },
    {
        let menu_id = random_id();
        let n = categories.len();
        let mut tokens: Vec<u128> = Vec::new();
        let mut i: usize = 0;
        while i < n
            invariant
                n == categories@.len(),
                i <= n,
                tokens@.len() == i,
            decreases n - i,
        {
            tokens.push(random_id());
            i = i + 1;
        }
        let r = self.open_menu_with(&tokens, menu_id, categories, amount, note, now);
        match &r {
            Ok(opts) => {
                assert(tokens_of(opts@) =~= tokens@);
            },
            Err(_) => {},
        }
        r
    }

    /// Removes every slot of menu `menu_id`, handing back the choice at
    /// position `at` of the old slots (which must belong to that menu).
    fn take_menu(&mut self, menu_id: u128, token: u128, Ghost(at): Ghost<int>) -> (r: CategoryCallback)
        requires
            old(self).wf(),
            0 <= at < old(self)@.len(),
            old(self)@[at].0 == token,
            old(self)@[at].1.menu_id == menu_id,
        ensures
            final(self).wf(),
            final(self)@ == old(self)@.filter(outside_menu(menu_id)),
            r == old(self)@[at].1,
    {
        let ghost s = self.entries@;
        let n = self.entries.len();
        let mut j: usize = 0;
        let mut k: usize = 0;
        let mut picked: Option<CategoryCallback> = None;
        while j < n
            invariant
                n == s.len(),
                j <= n,
                0 <= at < n,
                s[at].0 == token,
                s[at].1.menu_id == menu_id,
                tokens_unique(s),
                self.entries@ == s.subrange(0, j as int).filter(outside_menu(menu_id)) + s.subrange(
                    j as int,
                    n as int,
                ),
                k == s.subrange(0, j as int).filter(outside_menu(menu_id)).len(),
                tokens_unique(self.entries@),
                picked == if at < j {
                    Some(s[at].1)
                } else {
                    None::<CategoryCallback>
                },
            decreases n - j,
        {
            proof {
                lemma_filter_prefix_step(s, j as int, outside_menu(menu_id));
            }
            let ghost before = self.entries@;
            assert(before[k as int] == s[j as int]);
            if self.entries[k].1.menu_id == menu_id {
                proof {
                    lemma_remove_keeps_unique(before, k as int);
                }
                let e = self.entries.remove(k);
                if e.0 == token {
                    picked = Some(e.1);
                } else {
                    assert(j != at);
                }
                assert(self.entries@ =~= s.subrange(0, j + 1).filter(outside_menu(menu_id))
                    + s.subrange(j + 1, n as int));
            } else {
                assert(j != at);
                k = k + 1;
                assert(self.entries@ =~= s.subrange(0, j + 1).filter(outside_menu(menu_id))
                    + s.subrange(j + 1, n as int));
            }
            j = j + 1;
        }
        assert(s.subrange(0, n as int) =~= s);
        assert(s.subrange(n as int, n as int) =~= Seq::<Slot>::empty());
        match picked {
            Some(e) => e,
            None => {
                assert(false);
                self.entries.remove(0).1
            },
        }
    }

    /// Picks the choice under `token`. The token and every other token of its
    /// menu stop being valid; an unknown, used or swept token gives `None`
    /// and changes nothing.
    pub fn resolve(&mut self, token: u128) -> (r: Option<CategoryCallback>)
        requires
            old(self).wf(),
        ensures
            final(self).wf(),
            final(self)@ == after_resolve(old(self)@, token),
            r == if has_token(old(self)@, token) {
                Some(entry_of(old(self)@, token))
            } else {
                None::<CategoryCallback>
            },
    {
        let mut i: usize = 0;
        while i < self.entries.len()
            invariant
                self@ == old(self)@,
                tokens_unique(self@),
                i <= self.entries@.len(),
                forall|k: int| 0 <= k < i ==> self.entries@[k].0 != token,
            decreases self.entries@.len() - i,
        {
            if self.entries[i].0 == token {
                proof {
                    lemma_slot_index(self@, i as int);
                }
                let menu_id = self.entries[i].1.menu_id;
                let e = self.take_menu(menu_id, token, Ghost(i as int));
                return Some(e);
            }
            i = i + 1;
        }
        None
    }

    /// Drops every choice whose age at `now` is `ttl` or more.
    pub fn sweep(&mut self, now: u64, ttl: u64)
        requires
            old(self).wf(),
        ensures
            final(self).wf(),
            final(self)@ == after_sweep(old(self)@, now, ttl),
    {
        let ghost s = self.entries@;
        let n = self.entries.len();
        let mut j: usize = 0;
        let mut k: usize = 0;
        while j < n
            invariant
                n == s.len(),
                j <= n,
                tokens_unique(s),
                self.entries@ == s.subrange(0, j as int).filter(still_fresh(now, ttl)) + s.subrange(
                    j as int,
                    n as int,
                ),
                k == s.subrange(0, j as int).filter(still_fresh(now, ttl)).len(),
                tokens_unique(self.entries@),
            decreases n - j,
        {
            proof {
                lemma_filter_prefix_step(s, j as int, still_fresh(now, ttl));
            }
            let ghost before = self.entries@;
            assert(before[k as int] == s[j as int]);
            let created = self.entries[k].1.created_at;
            let age: u64 = if now >= created {
                now - created
            } else {
                0
            };
            if age >= ttl {
                proof {
                    lemma_remove_keeps_unique(before, k as int);
                }
                self.entries.remove(k);
            } else {
                k = k + 1;
            }
            assert(self.entries@ =~= s.subrange(0, j + 1).filter(still_fresh(now, ttl))
                + s.subrange(j + 1, n as int));
            j = j + 1;
        }
        assert(s.subrange(0, n as int) =~= s);
        assert(s.subrange(n as int, n as int) =~= Seq::<Slot>::empty());
    }
}

} // verus!
