//! The world list: one save file per world, a manifest holding the next
//! free id and the metadata of every world.

use vstd::prelude::*;
use crate::text::{chars_of, decimal, decimal_string, string_of, trim, trim_chars};

verus! {

/// Metadata of one world (for the world menu).
#[derive(Clone, Debug)]
pub struct WorldMeta {
    pub id: u32,
    pub name: String,
    pub created: i64,
    pub updated: i64,
}

impl WorldMeta {
    /// A copy of the metadata.
    pub fn copy(&self) -> (r: WorldMeta)
        ensures
            r == *self,
    {
        WorldMeta { id: self.id, name: self.name.clone(), created: self.created, updated: self.updated }
    }
}

/// The manifest: the next free world id and the list of worlds.
#[derive(Clone, Debug)]
pub struct WorldManifest {
    pub next_id: u32,
    pub worlds: Vec<WorldMeta>,
}

impl WorldManifest {
    /// The manifest of a fresh installation: no worlds, ids from 0.
    pub fn new() -> (m: WorldManifest)
        ensures
            m.next_id == 0,
            m.worlds@.len() == 0,
    {
        WorldManifest { next_id: 0, worlds: Vec::new() }
    }
}

/// Which world the game starts with; the menu sets it before switching to
/// the game scene.
pub enum WorldSelection {
    Nothing,
    New(u32, String),
    Load(u32),
}

/// File of a world's save, relative to the save directory.
pub open spec fn save_path(id: u32) -> Seq<char> {
    "worlds/world_"@ + decimal(id as nat) + ".json"@
}

/// Save file of the world `id`: `worlds/world_{id}.json`.
pub fn world_save_path(id: u32) -> (p: String)
    ensures
        p@ == save_path(id),
{
    let mut p = String::from_str("worlds/world_");
    let d = decimal_string(id as u64);
    p.append(d.as_str());
    p.append(".json");
    p
}

// ---------------------------------------------------------------------
//  World names
// ---------------------------------------------------------------------

/// Some world is called `name`.
pub open spec fn name_taken(worlds: Seq<WorldMeta>, name: Seq<char>) -> bool {
    exists|i: int| 0 <= i < worlds.len() && #[trigger] worlds[i].name@ == name
}

/// The wanted name without surrounding white space; "Мир" ("World") when
/// nothing is left.
pub open spec fn base_name(desired: Seq<char>) -> Seq<char> {
    if trim(desired).len() == 0 {
        "Мир"@
    } else {
        trim(desired)
    }
}

/// `base` with the suffix "(`n`)".
pub open spec fn numbered(base: Seq<char>, n: nat) -> Seq<char> {
    base + "("@ + decimal(n) + ")"@
}

/// `n` is the least positive suffix under which `base` is free.
pub open spec fn least_free(worlds: Seq<WorldMeta>, base: Seq<char>, n: nat) -> bool {
    &&& n >= 1
    &&& !name_taken(worlds, numbered(base, n))
    &&& forall|k: nat| 1 <= k < n ==> #[trigger] name_taken(worlds, numbered(base, k))
}

/// The name a new world gets: the base name if it is free, else the base
/// name with the least suffix "(1)", "(2)", ... that is free.
pub open spec fn unique_name(worlds: Seq<WorldMeta>, desired: Seq<char>) -> Seq<char> {
    let base = base_name(desired);
    if !name_taken(worlds, base) {
        base
    } else {
        numbered(base, choose|n: nat| least_free(worlds, base, n))
    }
}

proof fn lemma_decimal_len(n: nat)
    ensures
        decimal(n).len() >= 1,
        n >= 10 ==> decimal(n).len() >= 2,
    decreases n,
{
    if n >= 10 {
        lemma_decimal_len(n / 10);
    }
}

/// Distinct numbers have distinct decimal notations.
pub proof fn lemma_decimal_injective(a: nat, b: nat)
    requires
        decimal(a) == decimal(b),
    ensures
        a == b,
    decreases a,
{
    lemma_decimal_len(a);
    lemma_decimal_len(b);
    if a >= 10 && b >= 10 {
        let da = decimal(a);
        let db = decimal(b);
        assert(da.drop_last() =~= decimal(a / 10));
        assert(db.drop_last() =~= decimal(b / 10));
        lemma_decimal_injective(a / 10, b / 10);
        assert(da.last() == digit_of(a % 10));
        assert(db.last() == digit_of(b % 10));
        assert(a % 10 == b % 10);
        assert(a == 10 * (a / 10) + a % 10);
        assert(b == 10 * (b / 10) + b % 10);
    } else if a < 10 && b < 10 {
        assert(decimal(a)[0] == digit_of(a));
        assert(decimal(b)[0] == digit_of(b));
    } else {
        assert(decimal(a).len() == decimal(b).len());
    }
}

spec fn digit_of(d: nat) -> char {
    crate::text::digit_char(d as int)
}

proof fn lemma_numbered_injective(base: Seq<char>, a: nat, b: nat)
    requires
        numbered(base, a) == numbered(base, b),
    ensures
        a == b,
{
    reveal_strlit("(");
    reveal_strlit(")");
    let x = numbered(base, a);
    let y = numbered(base, b);
    let lo = base.len() + 1;
    assert(x.subrange(lo as int, x.len() - 1) =~= decimal(a));
    assert(y.subrange(lo as int, y.len() - 1) =~= decimal(b));
    lemma_decimal_injective(a, b);
}

/// At most as many suffixes are taken as there are worlds.
proof fn lemma_suffixes_taken(worlds: Seq<WorldMeta>, base: Seq<char>, n: nat)
    requires
        forall|k: nat| 1 <= k <= n ==> #[trigger] name_taken(worlds, numbered(base, k)),
    ensures
        n <= worlds.len(),
{
    let ks = vstd::set_lib::set_int_range(1, n as int + 1);
    vstd::set_lib::lemma_int_range(1, n as int + 1);
    let f = |k: int| choose|i: int| 0 <= i < worlds.len() && worlds[i].name@ == numbered(base, k as nat);
    assert forall|k: int| #[trigger] ks.contains(k) implies 0 <= f(k) < worlds.len() && worlds[f(k)].name@
        == numbered(base, k as nat) by {
        assert(name_taken(worlds, numbered(base, k as nat)));
    }
    assert(vstd::relations::injective_on(f, ks)) by {
        assert forall|a: int, b: int| ks.contains(a) && ks.contains(b) && #[trigger] f(a) == #[trigger] f(
            b,
        ) implies a == b by {
            lemma_numbered_injective(base, a as nat, b as nat);
        }
    }
    let img = ks.map(f);
    vstd::set_lib::lemma_map_size(ks, img, f);
    let idx = vstd::set_lib::set_int_range(0, worlds.len() as int);
    vstd::set_lib::lemma_int_range(0, worlds.len() as int);
    assert(img.subset_of(idx));
    vstd::set_lib::lemma_len_subset(img, idx);
}

/// Whether some world is called `name`.
fn is_name_taken(worlds: &Vec<WorldMeta>, name: &String) -> (b: bool)
    ensures
        b == name_taken(worlds@, name@),
{
    let mut i: usize = 0;
    while i < worlds.len()
        invariant
            i <= worlds@.len(),
            forall|k: int| 0 <= k < i ==> #[trigger] worlds@[k].name@ != name@,
        decreases worlds@.len() - i,
    {
        if worlds[i].name == *name {
            return true;
        }
        i = i + 1;
    }
    false
}

/// A name for a new world that no world in `worlds` has: the wanted name
/// without surrounding white space ("Мир" if that is empty), with the
/// least free suffix "(1)", "(2)", ... when it is taken.
pub fn unique_world_name(worlds: &Vec<WorldMeta>, desired: &str) -> (r: String)
    requires
        worlds@.len() < u32::MAX,
    ensures
        r@ == unique_name(worlds@, desired@),
        !name_taken(worlds@, r@),
{
    let trimmed = trim_chars(&chars_of(desired));
    let base: String = if trimmed.len() == 0 {
        String::from_str("Мир")
    } else {
        string_of(&trimmed)
    };
    if !is_name_taken(worlds, &base) {
        return base;
    }
    let mut n: u32 = 1;
    loop
        invariant
            base@ == base_name(desired@),
            name_taken(worlds@, base@),
            worlds@.len() < u32::MAX,
            1 <= n,
            n <= worlds@.len() + 1,
            forall|k: nat| 1 <= k < n ==> #[trigger] name_taken(worlds@, numbered(base@, k)),
        decreases worlds@.len() + 1 - n,
    {
        let mut cand = base.clone();
        cand.append("(");
        let d = decimal_string(n as u64);
        cand.append(d.as_str());
        cand.append(")");
        proof {
            assert(cand@ =~= numbered(base@, n as nat));
        }
        if !is_name_taken(worlds, &cand) {
            proof {
                assert(least_free(worlds@, base@, n as nat));
                let m = choose|m: nat| least_free(worlds@, base@, m);
                assert(least_free(worlds@, base@, m));
                if m < n {
                    assert(name_taken(worlds@, numbered(base@, m)));
                }
                if n < m {
                    assert(name_taken(worlds@, numbered(base@, n as nat)));
                }
                assert(m == n);
                assert(name_taken(worlds@, base_name(desired@)));
                assert(unique_name(worlds@, desired@) == numbered(base@, m));
            }
            return cand;
        }
        proof {
            lemma_suffixes_taken(worlds@, base@, n as nat);
        }
        n = n + 1;
    }
}

// ---------------------------------------------------------------------
//  The world list
// ---------------------------------------------------------------------

/// `p` lists each of `0 .. n` exactly once.
pub open spec fn is_permutation(p: Seq<int>, n: int) -> bool {
    &&& p.len() == n
    &&& forall|k: int| 0 <= k < n ==> 0 <= #[trigger] p[k] < n
    &&& forall|a: int, b: int| 0 <= a < b < n ==> #[trigger] p[a] != #[trigger] p[b]
}

/// World `a` comes before world `b` in the menu: updated later, or as late
/// and earlier in the manifest (`ia`, `ib` being their manifest positions).
pub open spec fn shown_before(a: WorldMeta, ia: int, b: WorldMeta, ib: int) -> bool {
    a.updated > b.updated || (a.updated == b.updated && ia < ib)
}

/// `out` is `src` ordered from the most recently updated to the oldest,
/// worlds updated at the same time in manifest order.
pub open spec fn by_recency(src: Seq<WorldMeta>, out: Seq<WorldMeta>) -> bool {
    exists|p: Seq<int>|
        #![trigger is_permutation(p, src.len() as int)]
        is_permutation(p, src.len() as int) && out.len() == src.len() && (forall|k: int|
            0 <= k < out.len() ==> #[trigger] out[k] == src[p[k]]) && (forall|a: int, b: int|
            0 <= a < b < out.len() ==> shown_before(
                #[trigger] src[p[a]],
                p[a],
                #[trigger] src[p[b]],
                p[b],
            ))
}

/// The worlds of the manifest, most recently updated first (a stable sort:
/// worlds updated at the same time keep their manifest order).
pub fn list_worlds(m: &WorldManifest) -> (r: Vec<WorldMeta>)
    ensures
        by_recency(m.worlds@, r@),
{
    let src = &m.worlds;
    let n = src.len();
    let mut taken: Vec<bool> = Vec::new();
    let mut i: usize = 0;
    while i < n
        invariant
            i <= n,
            n == src@.len(),
            taken@.len() == i,
            forall|k: int| 0 <= k < i ==> !#[trigger] taken@[k],
        decreases n - i,
    {
        taken.push(false);
        i = i + 1;
    }
    let mut out: Vec<WorldMeta> = Vec::new();
    let ghost mut p: Seq<int> = seq![];
    while out.len() < n
        invariant
            n == src@.len(),
            taken@.len() == n,
            out@.len() == p.len(),
            p.len() <= n,
            forall|k: int| 0 <= k < p.len() ==> 0 <= #[trigger] p[k] < n,
            forall|a: int, b: int| 0 <= a < b < p.len() ==> #[trigger] p[a] != #[trigger] p[b],
            forall|j: int| 0 <= j < n ==> (#[trigger] taken@[j] <==> p.contains(j)),
            forall|k: int| 0 <= k < p.len() ==> #[trigger] out@[k] == src@[p[k]],
            forall|a: int, b: int|
                0 <= a < b < p.len() ==> shown_before(
                    #[trigger] src@[p[a]],
                    p[a],
                    #[trigger] src@[p[b]],
                    p[b],
                ),
            forall|k: int, j: int|
                0 <= k < p.len() && 0 <= j < n && !taken@[j] ==> shown_before(
                    #[trigger] src@[p[k]],
                    p[k],
                    #[trigger] src@[j],
                    j,
                ),
        decreases n - out@.len(),
    {
        // the first world of latest update among those not yet listed
        let mut best: usize = n;
        let mut j: usize = 0;
        while j < n
            invariant
                n == src@.len(),
                taken@.len() == n,
                j <= n,
                best == n || (best < j && !taken@[best as int]),
                best == n ==> forall|k: int| 0 <= k < j ==> #[trigger] taken@[k],
                best < n ==> forall|k: int|
                    0 <= k < j && !#[trigger] taken@[k] && k != best ==> shown_before(
                        src@[best as int],
                        best as int,
                        src@[k],
                        k,
                    ),
            decreases n - j,
        {
            if !taken[j] {
                if best == n || src[j].updated > src[best].updated {
                    best = j;
                }
            }
            j = j + 1;
        }
        proof {
            if best == n {
                assert forall|k: int| 0 <= k < n implies p.contains(k) by {
                    assert(taken@[k]);
                }
                assert(p.to_set().len() <= p.len()) by {
                    p.lemma_cardinality_of_set();
                }
                let all = vstd::set_lib::set_int_range(0, n as int);
                vstd::set_lib::lemma_int_range(0, n as int);
                assert(all.subset_of(p.to_set()));
                vstd::set_lib::lemma_len_subset(all, p.to_set());
                assert(false);
            }
        }
        let ghost old_p = p;
        let ghost old_taken = taken@;
        out.push(src[best].copy());
        taken.set(best, true);
        proof {
            p = p.push(best as int);
            assert forall|a: int, b: int| 0 <= a < b < p.len() implies #[trigger] p[a] != #[trigger] p[b] by {
                if b == p.len() - 1 {
                    assert(old_taken[p[a]]);
                }
            }
            assert forall|j: int| 0 <= j < n implies (#[trigger] taken@[j] <==> p.contains(j)) by {
                if j == best {
                    assert(p[p.len() - 1] == j);
                } else {
                    if p.contains(j) {
                        let k = choose|k: int| 0 <= k < p.len() && p[k] == j;
                        assert(old_p[k] == j);
                    }
                    if old_p.contains(j) {
                        let k = choose|k: int| 0 <= k < old_p.len() && old_p[k] == j;
                        assert(p[k] == j);
                    }
                }
            }
            assert forall|a: int, b: int|
                0 <= a < b < p.len() implies shown_before(
                    #[trigger] src@[p[a]],
                    p[a],
                    #[trigger] src@[p[b]],
                    p[b],
                ) by {
                if b == p.len() - 1 {
                    assert(!old_taken[best as int]);
                }
            }
            assert forall|k: int, j: int|
                0 <= k < p.len() && 0 <= j < n && !taken@[j] implies shown_before(
                    #[trigger] src@[p[k]],
                    p[k],
                    #[trigger] src@[j],
                    j,
                ) by {
                if k == p.len() - 1 {
                    assert(!old_taken[j]);
                }
            }
        }
    }
    proof {
        assert(is_permutation(p, src@.len() as int));
    }
    out
}

/// A permutation reaches every position.
proof fn lemma_permutation_onto(p: Seq<int>, n: int, j: int)
    requires
        is_permutation(p, n),
        0 <= j < n,
    ensures
        exists|k: int| 0 <= k < n && p[k] == j,
{
    assert(p.no_duplicates()) by {
        assert forall|a: int, b: int| 0 <= a < p.len() && 0 <= b < p.len() && a != b implies p[a] != p[b] by {
            if a < b {
                assert(p[a] != p[b]);
            } else {
                assert(p[b] != p[a]);
            }
        }
    }
    p.unique_seq_to_set();
    let all = vstd::set_lib::set_int_range(0, n);
    vstd::set_lib::lemma_int_range(0, n);
    assert(p.to_set().subset_of(all));
    vstd::set_lib::lemma_subset_equality(p.to_set(), all);
    assert(all.contains(j));
    assert(p.to_set().contains(j));
}

/// World `i` of `src` has id `id`.
pub open spec fn with_id(src: Seq<WorldMeta>, id: u32, i: int) -> bool {
    0 <= i < src.len() && src[i].id == id
}

/// World `i` is, among the worlds with id `id`, the one shown first.
pub open spec fn most_recent_with_id(src: Seq<WorldMeta>, id: u32, i: int) -> bool {
    &&& with_id(src, id, i)
    &&& forall|j: int| #[trigger] with_id(src, id, j) && j != i ==> shown_before(src[i], i, src[j], j)
}

/// Metadata of the world `id` (the one listed first, should several share
/// the id).
pub fn world_meta(m: &WorldManifest, id: u32) -> (r: Option<WorldMeta>)
    ensures
        r is Some <==> exists|i: int| #[trigger] with_id(m.worlds@, id, i),
        r matches Some(w) ==> exists|i: int|
            #[trigger] most_recent_with_id(m.worlds@, id, i) && w == m.worlds@[i],
{
    let ghost src = m.worlds@;
    let sorted = list_worlds(m);
    let ghost p = choose|p: Seq<int>|
        #![trigger is_permutation(p, src.len() as int)]
        is_permutation(p, src.len() as int) && sorted@.len() == src.len() && (forall|k: int|
            0 <= k < sorted@.len() ==> #[trigger] sorted@[k] == src[p[k]]) && (forall|a: int, b: int|
            0 <= a < b < sorted@.len() ==> shown_before(
                #[trigger] src[p[a]],
                p[a],
                #[trigger] src[p[b]],
                p[b],
            ));
    let mut k: usize = 0;
    while k < sorted.len()
        invariant
            src == m.worlds@,
            is_permutation(p, src.len() as int),
            sorted@.len() == src.len(),
            forall|kk: int| 0 <= kk < sorted@.len() ==> #[trigger] sorted@[kk] == src[p[kk]],
            forall|a: int, b: int|
                0 <= a < b < sorted@.len() ==> shown_before(
                    #[trigger] src[p[a]],
                    p[a],
                    #[trigger] src[p[b]],
                    p[b],
                ),
            k <= sorted@.len(),
            forall|a: int| 0 <= a < k ==> #[trigger] sorted@[a].id != id,
        decreases sorted@.len() - k,
    {
        if sorted[k].id == id {
            proof {
                let i = p[k as int];
                assert(sorted@[k as int] == src[i]);
                assert forall|j: int| #[trigger] with_id(src, id, j) && j != i implies shown_before(
                    src[i],
                    i,
                    src[j],
                    j,
                ) by {
                    lemma_permutation_onto(p, src.len() as int, j);
                    let kk = choose|kk: int| 0 <= kk < src.len() && p[kk] == j;
                    assert(sorted@[kk] == src[j]);
                    if kk < k {
                        assert(sorted@[kk].id != id);
                    }
                    assert(kk != k);
                }
                assert(most_recent_with_id(src, id, i));
            }
            return Some(sorted[k].copy());
        }
        k = k + 1;
    }
    proof {
        if exists|i: int| #[trigger] with_id(src, id, i) {
            let i = choose|i: int| #[trigger] with_id(src, id, i);
            lemma_permutation_onto(p, src.len() as int, i);
            let kk = choose|kk: int| 0 <= kk < src.len() && p[kk] == i;
            assert(sorted@[kk] == src[i]);
        }
    }
    None
}

// ---------------------------------------------------------------------
//  Creating, touching and deleting worlds
// ---------------------------------------------------------------------

/// `r` was created in `new` from `old` with the wanted name `desired` at
/// time `now`.
pub open spec fn create_post(
    old: WorldManifest,
    new: WorldManifest,
    r: WorldMeta,
    desired: Seq<char>,
    now: i64,
) -> bool {
    &&& r.id == old.next_id
    &&& r.name@ == unique_name(old.worlds@, desired)
    &&& r.created == now
    &&& r.updated == now
    &&& new.next_id == old.next_id + 1
    &&& new.worlds@ == old.worlds@.push(r)
}

/// Creates a world named after `desired` (made unique, see
/// `unique_world_name`) with the next free id, created and updated at
/// `now`. Its save file appears at the first save.
pub fn create_world_with_name(m: &mut WorldManifest, desired: &str, now: i64) -> (r: WorldMeta)
    requires
        old(m).next_id < u32::MAX,
        old(m).worlds@.len() < u32::MAX,
    ensures
        create_post(*old(m), *final(m), r, desired@, now),
{
    let id = m.next_id;
    m.next_id = m.next_id + 1;
    let name = unique_world_name(&m.worlds, desired);
    let meta = WorldMeta { id, name, created: now, updated: now };
    m.worlds.push(meta.copy());
    meta
}

/// Creates a world with the default name "Мир" ("World").
pub fn create_world(m: &mut WorldManifest, now: i64) -> (r: WorldMeta)
    requires
        old(m).next_id < u32::MAX,
        old(m).worlds@.len() < u32::MAX,
    ensures
        create_post(*old(m), *final(m), r, "Мир"@, now),
{
    create_world_with_name(m, "Мир", now)
}

/// `k` is the first world with id `id`.
pub open spec fn first_with_id(src: Seq<WorldMeta>, id: u32, k: int) -> bool {
    &&& with_id(src, id, k)
    &&& forall|j: int| 0 <= j < k ==> #[trigger] src[j].id != id
}

/// `w` updated at `now`.
pub open spec fn touched(w: WorldMeta, now: i64) -> WorldMeta {
    WorldMeta { id: w.id, name: w.name, created: w.created, updated: now }
}

/// `new` is `old` with the first world of id `id` updated at `now`.
pub open spec fn touch_post(old: WorldManifest, new: WorldManifest, id: u32, now: i64) -> bool {
    &&& new.next_id == old.next_id
    &&& (exists|k: int| first_with_id(old.worlds@, id, k) && new.worlds@ == old.worlds@.update(
        k,
        touched(old.worlds@[k], now),
    )) || ((forall|k: int| !#[trigger] with_id(old.worlds@, id, k)) && new.worlds@
        == old.worlds@)
}

/// Marks the world `id` as updated at `now` (on saving).
pub fn touch_world(m: &mut WorldManifest, id: u32, now: i64)
    ensures
        touch_post(*old(m), *final(m), id, now),
{
    let mut k: usize = 0;
    while k < m.worlds.len()
        invariant
            m.worlds@ == old(m).worlds@,
            m.next_id == old(m).next_id,
            k <= m.worlds@.len(),
            forall|j: int| 0 <= j < k ==> #[trigger] m.worlds@[j].id != id,
        decreases m.worlds@.len() - k,
    {
        if m.worlds[k].id == id {
            let mut w = m.worlds[k].copy();
            w.updated = now;
            m.worlds.set(k, w);
            proof {
                assert(first_with_id(old(m).worlds@, id, k as int));
                assert(m.worlds@ == old(m).worlds@.update(k as int, touched(old(m).worlds@[k as int], now)));
            }
            return ;
        }
        k = k + 1;
    }
}

/// `src` without the worlds of id `id`, in order.
pub open spec fn without_id(src: Seq<WorldMeta>, id: u32) -> Seq<WorldMeta>
    decreases src.len(),
{
    if src.len() == 0 {
        seq![]
    } else if src.last().id == id {
        without_id(src.drop_last(), id)
    } else {
        without_id(src.drop_last(), id).push(src.last())
    }
}

/// Removes the world `id` from the manifest. Ids are never given out again:
/// `next_id` stays. (The caller deletes the save file.)
pub fn delete_world(m: &mut WorldManifest, id: u32)
    ensures
        final(m).next_id == old(m).next_id,
        final(m).worlds@ == without_id(old(m).worlds@, id),
{
    let mut kept: Vec<WorldMeta> = Vec::new();
    let mut k: usize = 0;
    while k < m.worlds.len()
        invariant
            m.worlds@ == old(m).worlds@,
            m.next_id == old(m).next_id,
            k <= m.worlds@.len(),
            kept@ == without_id(m.worlds@.take(k as int), id),
        decreases m.worlds@.len() - k,
    {
        proof {
            assert(m.worlds@.take(k + 1).drop_last() =~= m.worlds@.take(k as int));
        }
        if m.worlds[k].id != id {
            kept.push(m.worlds[k].copy());
        }
        k = k + 1;
    }
    proof {
        assert(m.worlds@.take(k as int) =~= m.worlds@);
    }
    m.worlds = kept;
}

// ---------------------------------------------------------------------
//  Laws of the manifest
// ---------------------------------------------------------------------

/// A consistent manifest: every id is below `next_id`, and no two worlds
/// share an id or a name.
pub open spec fn manifest_wf(m: WorldManifest) -> bool {
    &&& forall|i: int| 0 <= i < m.worlds@.len() ==> #[trigger] m.worlds@[i].id < m.next_id
    &&& forall|i: int, j: int|
        0 <= i < j < m.worlds@.len() ==> #[trigger] m.worlds@[i].id != #[trigger] m.worlds@[j].id
    &&& forall|i: int, j: int|
        0 <= i < j < m.worlds@.len() ==> #[trigger] m.worlds@[i].name@ != #[trigger] m.worlds@[j].name@
}

proof fn lemma_least_free_from(worlds: Seq<WorldMeta>, base: Seq<char>, k: nat)
    requires
        k >= 1,
        forall|j: nat| 1 <= j < k ==> #[trigger] name_taken(worlds, numbered(base, j)),
        k <= worlds.len() + 1,
    ensures
        exists|n: nat| least_free(worlds, base, n),
    decreases worlds.len() + 1 - k,
{
    if !name_taken(worlds, numbered(base, k)) {
        assert(least_free(worlds, base, k));
    } else {
        lemma_suffixes_taken(worlds, base, k);
        lemma_least_free_from(worlds, base, k + 1);
    }
}

/// The name chosen for a new world is not the name of any world.
pub proof fn lemma_unique_name_free(worlds: Seq<WorldMeta>, desired: Seq<char>)
    ensures
        !name_taken(worlds, unique_name(worlds, desired)),
{
    let base = base_name(desired);
    if name_taken(worlds, base) {
        lemma_least_free_from(worlds, base, 1);
        let n = choose|n: nat| least_free(worlds, base, n);
        assert(least_free(worlds, base, n));
    }
}

/// Creating a world keeps the manifest consistent; the new id is held by
/// no other world, and looking the new world up by its id finds it.
pub proof fn law_create_fresh(
    old: WorldManifest,
    new: WorldManifest,
    r: WorldMeta,
    desired: Seq<char>,
    now: i64,
)
    requires
        manifest_wf(old),
        create_post(old, new, r, desired, now),
    ensures
        manifest_wf(new),
        forall|i: int| 0 <= i < old.worlds@.len() ==> #[trigger] old.worlds@[i].id != r.id,
        most_recent_with_id(new.worlds@, r.id, old.worlds@.len() as int),
        new.worlds@[old.worlds@.len() as int] == r,
{
    lemma_unique_name_free(old.worlds@, desired);
    let n = old.worlds@.len() as int;
    let ws = new.worlds@;
    assert(ws[n] == r);
    assert forall|i: int| 0 <= i < ws.len() implies #[trigger] ws[i].id < new.next_id by {
        if i < n {
            assert(ws[i] == old.worlds@[i]);
        }
    }
    assert forall|i: int, j: int| 0 <= i < j < ws.len() implies #[trigger] ws[i].id != #[trigger] ws[j].id by {
        assert(ws[i] == old.worlds@[i]);
        if j < n {
            assert(ws[j] == old.worlds@[j]);
        }
    }
    assert forall|i: int, j: int| 0 <= i < j < ws.len() implies #[trigger] ws[i].name@
        != #[trigger] ws[j].name@ by {
        assert(ws[i] == old.worlds@[i]);
        if j < n {
            assert(ws[j] == old.worlds@[j]);
        } else {
            assert(!name_taken(old.worlds@, r.name@));
            assert(old.worlds@[i].name@ != r.name@);
        }
    }
    assert forall|j: int| #[trigger] with_id(ws, r.id, j) && j != n implies shown_before(ws[n], n, ws[j], j) by {
        assert(ws[j] == old.worlds@[j]);
    }
}

/// Every world `without_id` keeps is a world of another id of `src`.
pub proof fn lemma_without_id_members(src: Seq<WorldMeta>, id: u32)
    ensures
        forall|k: int|
            0 <= k < without_id(src, id).len() ==> (#[trigger] without_id(src, id)[k]).id != id
                && exists|i: int| 0 <= i < src.len() && without_id(src, id)[k] == src[i],
    decreases src.len(),
{
    if src.len() > 0 {
        let s = src.drop_last();
        lemma_without_id_members(s, id);
        let o = without_id(s, id);
        let out = without_id(src, id);
        assert forall|k: int| 0 <= k < out.len() implies (#[trigger] out[k]).id != id && exists|i: int|
            0 <= i < src.len() && out[k] == src[i] by {
            if k < o.len() {
                assert(out[k] == o[k]);
                let i = choose|i: int| 0 <= i < s.len() && o[k] == s[i];
                assert(src[i] == s[i]);
            } else {
                assert(out[k] == src.last());
            }
        }
    }
}

/// `without_id` keeps the order of `src`.
pub proof fn lemma_without_id_order(src: Seq<WorldMeta>, id: u32)
    ensures
        forall|a: int, b: int|
            0 <= a < b < without_id(src, id).len() ==> exists|i: int, j: int|
                0 <= i < j < src.len() && #[trigger] without_id(src, id)[a] == src[i]
                    && #[trigger] without_id(src, id)[b] == src[j],
    decreases src.len(),
{
    if src.len() > 0 {
        let s = src.drop_last();
        lemma_without_id_order(s, id);
        lemma_without_id_members(s, id);
        let o = without_id(s, id);
        let out = without_id(src, id);
        assert forall|a: int, b: int| 0 <= a < b < out.len() implies exists|i: int, j: int|
            0 <= i < j < src.len() && #[trigger] out[a] == src[i] && #[trigger] out[b] == src[j] by {
            assert(out[a] == o[a]);
            if b < o.len() {
                assert(out[b] == o[b]);
                let (i, j) = choose|i: int, j: int| 0 <= i < j < s.len() && o[a] == s[i] && o[b] == s[j];
                assert(src[i] == s[i] && src[j] == s[j]);
            } else {
                let i = choose|i: int| 0 <= i < s.len() && o[a] == s[i];
                assert(src[i] == s[i]);
                assert(out[b] == src[src.len() - 1]);
            }
        }
    }
}

/// `without_id` keeps every world of another id.
pub proof fn lemma_without_id_keeps(src: Seq<WorldMeta>, id: u32)
    ensures
        forall|i: int|
            0 <= i < src.len() && #[trigger] src[i].id != id ==> exists|k: int|
                0 <= k < without_id(src, id).len() && without_id(src, id)[k] == src[i],
    decreases src.len(),
{
    if src.len() > 0 {
        let s = src.drop_last();
        lemma_without_id_keeps(s, id);
        let o = without_id(s, id);
        let out = without_id(src, id);
        assert forall|i: int| 0 <= i < src.len() && #[trigger] src[i].id != id implies exists|k: int|
            0 <= k < out.len() && out[k] == src[i] by {
            if i < s.len() {
                assert(s[i] == src[i]);
                let k = choose|k: int| 0 <= k < o.len() && o[k] == s[i];
                assert(out[k] == o[k]);
            } else {
                assert(out[out.len() - 1] == src[i]);
            }
        }
    }
}

proof fn lemma_delete_ids_below(old: WorldManifest, new: WorldManifest, id: u32)
    requires
        forall|i: int| 0 <= i < old.worlds@.len() ==> #[trigger] old.worlds@[i].id < old.next_id,
        new.next_id == old.next_id,
        new.worlds@ == without_id(old.worlds@, id),
    ensures
        forall|i: int| 0 <= i < new.worlds@.len() ==> #[trigger] new.worlds@[i].id < new.next_id,
        forall|k: int| 0 <= k < new.worlds@.len() ==> #[trigger] new.worlds@[k].id != id,
{
    lemma_without_id_members(old.worlds@, id);
    let ws = new.worlds@;
    let os = old.worlds@;
    assert forall|k: int| 0 <= k < ws.len() implies #[trigger] ws[k].id < new.next_id by {
        let i = choose|i: int| 0 <= i < os.len() && ws[k] == os[i];
        assert(os[i].id < old.next_id);
    }
}

proof fn lemma_delete_distinct(old: WorldManifest, new: WorldManifest, id: u32)
    requires
        forall|i: int, j: int|
            0 <= i < j < old.worlds@.len() ==> #[trigger] old.worlds@[i].id != #[trigger] old.worlds@[j].id,
        forall|i: int, j: int|
            0 <= i < j < old.worlds@.len() ==> #[trigger] old.worlds@[i].name@
                != #[trigger] old.worlds@[j].name@,
        new.worlds@ == without_id(old.worlds@, id),
    ensures
        forall|i: int, j: int|
            0 <= i < j < new.worlds@.len() ==> #[trigger] new.worlds@[i].id != #[trigger] new.worlds@[j].id,
        forall|i: int, j: int|
            0 <= i < j < new.worlds@.len() ==> #[trigger] new.worlds@[i].name@
                != #[trigger] new.worlds@[j].name@,
{
    lemma_without_id_order(old.worlds@, id);
    let ws = new.worlds@;
    let os = old.worlds@;
    assert forall|a: int, b: int| 0 <= a < b < ws.len() implies #[trigger] ws[a].id != #[trigger] ws[b].id
        && ws[a].name@ != ws[b].name@ by {
        let (i, j) = choose|i: int, j: int| 0 <= i < j < os.len() && ws[a] == os[i] && ws[b] == os[j];
        assert(os[i].id != os[j].id);
        assert(os[i].name@ != os[j].name@);
    }
}

/// Deleting a world keeps the manifest consistent, leaves no world of that
/// id and keeps every other world; the id is never given out again, as
/// `next_id` stays above it.
pub proof fn law_delete(old: WorldManifest, new: WorldManifest, id: u32)
    requires
        manifest_wf(old),
        new.next_id == old.next_id,
        new.worlds@ == without_id(old.worlds@, id),
    ensures
        manifest_wf(new),
        forall|k: int| 0 <= k < new.worlds@.len() ==> #[trigger] new.worlds@[k].id != id,
        forall|i: int|
            0 <= i < old.worlds@.len() && #[trigger] old.worlds@[i].id != id ==> exists|k: int|
                0 <= k < new.worlds@.len() && new.worlds@[k] == old.worlds@[i],
        (exists|i: int| #[trigger] with_id(old.worlds@, id, i)) ==> id < new.next_id,
{
    lemma_delete_ids_below(old, new, id);
    lemma_delete_distinct(old, new, id);
    lemma_without_id_keeps(old.worlds@, id);
    if exists|i: int| #[trigger] with_id(old.worlds@, id, i) {
        let i = choose|i: int| #[trigger] with_id(old.worlds@, id, i);
        assert(old.worlds@[i].id < old.next_id);
    }
}

/// Ids only grow: creating a world (`create_world_with_name`, whose
/// contract is `create_post`), deleting it (`delete_world`) and creating
/// another gives the second world the deleted world's id plus one, never
/// the deleted id.
pub proof fn law_ids_grow(
    m0: WorldManifest,
    m1: WorldManifest,
    m2: WorldManifest,
    m3: WorldManifest,
    r1: WorldMeta,
    r2: WorldMeta,
    a: Seq<char>,
    b: Seq<char>,
    t1: i64,
    t2: i64,
)
    requires
        create_post(m0, m1, r1, a, t1),
        m2.next_id == m1.next_id,
        m2.worlds@ == without_id(m1.worlds@, r1.id),
        create_post(m2, m3, r2, b, t2),
    ensures
        r2.id == r1.id + 1,
        r2.id != r1.id,
{
}

/// Touching a world keeps the manifest consistent.
pub proof fn law_touch(old: WorldManifest, new: WorldManifest, id: u32, now: i64)
    requires
        manifest_wf(old),
        touch_post(old, new, id, now),
    ensures
        manifest_wf(new),
{
    let os = old.worlds@;
    let ws = new.worlds@;
    if exists|k: int| first_with_id(os, id, k) && ws == os.update(k, touched(os[k], now)) {
        let k = choose|k: int| first_with_id(os, id, k) && ws == os.update(k, touched(os[k], now));
        assert forall|i: int| 0 <= i < ws.len() implies #[trigger] ws[i].id == os[i].id && ws[i].name@
            == os[i].name@ by {
        }
        assert forall|i: int| 0 <= i < ws.len() implies #[trigger] ws[i].id < new.next_id by {
            assert(ws[i].id == os[i].id);
        }
        assert forall|i: int, j: int| 0 <= i < j < ws.len() implies #[trigger] ws[i].id != #[trigger] ws[j].id
            && ws[i].name@ != ws[j].name@ by {
            assert(ws[i].id == os[i].id && ws[i].name@ == os[i].name@);
            assert(ws[j].id == os[j].id && ws[j].name@ == os[j].name@);
        }
    }
}

} // verus!
